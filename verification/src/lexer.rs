//! Tokens of a condition line.

use crate::event::{CmpOp, Float};
use crate::floats::{agree, agree_on_parts, FloatTable, FloatsView};
use crate::text::{
    digit, from_chars, ident_char, is_digit, is_ident_char, is_letter, is_text, is_white, join,
    letter, parse_i64, signed_value, starts, white,
};
use vstd::prelude::*;
use vstd::slice::slice_subrange;

verus! {

// ---------------------------------------------------------------------
// String literals and comments
// ---------------------------------------------------------------------

/// The character that a backslash and `c` stand for.
pub open spec fn unescaped(c: char) -> char {
    if c == 'n' {
        '\n'
    } else if c == 't' {
        '\t'
    } else {
        c
    }
}

/// What follows an opening quote: the text up to the closing quote, and the
/// number of characters up to and with that quote.
pub open spec fn literal_body(s: Seq<char>) -> Option<(Seq<char>, nat)>
    decreases s.len(),
{
    if s.len() == 0 {
        None
    } else if s[0] == '"' {
        Some((Seq::empty(), 1))
    } else if s[0] == '\\' {
        if s.len() < 2 {
            None
        } else {
            match literal_body(s.skip(2)) {
                Some((text, n)) => Some((seq![unescaped(s[1])] + text, n + 2)),
                None => None,
            }
        }
    } else {
        match literal_body(s.skip(1)) {
            Some((text, n)) => Some((seq![s[0]] + text, n + 1)),
            None => None,
        }
    }
}

/// The string literal that `s` starts with: its text, and its length in
/// characters, quotes and escapes included.
pub open spec fn literal(s: Seq<char>) -> Option<(Seq<char>, nat)> {
    if s.len() > 0 && s[0] == '"' {
        match literal_body(s.skip(1)) {
            Some((text, n)) => Some((text, n + 1)),
            None => None,
        }
    } else {
        None
    }
}

/// A literal lies within the text that it starts.
pub proof fn literal_fits(s: Seq<char>)
    ensures
        literal_body(s) matches Some((text, n)) ==> 0 < n <= s.len(),
        literal(s) matches Some((text, n)) ==> 1 < n <= s.len(),
    decreases s.len(),
{
    if s.len() > 0 {
        literal_fits(s.skip(1));
        if s.len() > 1 {
            literal_fits(s.skip(2));
        }
    }
}

/// A character as it is written in a string: a quote and a backslash after a
/// backslash, a line break as `\n`, a tab as `\t`, any other as it is.
pub open spec fn escape(c: char) -> Seq<char> {
    if c == '"' || c == '\\' {
        seq!['\\', c]
    } else if c == '\n' {
        seq!['\\', 'n']
    } else if c == '\t' {
        seq!['\\', 't']
    } else {
        seq![c]
    }
}

/// A text as it is written in a string.
pub open spec fn escaped(s: Seq<char>) -> Seq<char>
    decreases s.len(),
{
    if s.len() == 0 {
        s
    } else {
        escape(s[0]) + escaped(s.skip(1))
    }
}

/// What follows the opening quote of an escaped text reads as that text.
proof fn escaped_body_is_read_back(s: Seq<char>, rest: Seq<char>)
    ensures
        literal_body(escaped(s) + seq!['"'] + rest) == Some((s, (escaped(s).len() + 1) as nat)),
    decreases s.len(),
{
    let all = escaped(s) + seq!['"'] + rest;
    if s.len() == 0 {
        assert(all[0] == '"');
        assert(s =~= Seq::empty());
    } else {
        let tail = s.skip(1);
        let after = escaped(tail) + seq!['"'] + rest;
        escaped_body_is_read_back(tail, rest);
        assert(seq![s[0]] + tail =~= s);
        assert(all =~= escape(s[0]) + after);
        if escape(s[0]).len() == 2 {
            assert(all[0] == '\\' && all[1] == escape(s[0])[1]);
            assert(all.skip(2) =~= after);
        } else {
            assert(all[0] == s[0]);
            assert(all.skip(1) =~= after);
        }
    }
}

/// A backslash before any other character than `n` and `t` stands for that
/// character.
pub proof fn backslash_takes_the_next(c: char, s: Seq<char>, rest: Seq<char>)
    requires
        c != 'n',
        c != 't',
    ensures
        literal(seq!['"', '\\', c] + escaped(s) + seq!['"'] + rest) == Some(
            (seq![c] + s, (escaped(s).len() + 4) as nat),
        ),
{
    let all = seq!['"', '\\', c] + escaped(s) + seq!['"'] + rest;
    escaped_body_is_read_back(s, rest);
    let body = all.skip(1);
    assert(body[0] == '\\' && body[1] == c);
    assert(body.skip(2) =~= escaped(s) + seq!['"'] + rest);
}

/// A quote that no further quote follows starts no string, and neither does a text
/// without one.
pub proof fn open_strings_are_refused(s: Seq<char>)
    requires
        !s.contains('"'),
    ensures
        literal(seq!['"'] + s) is None,
        literal(s) is None,
{
    assert((seq!['"'] + s).skip(1) =~= s);
    no_quote_no_end(s);
    if s.len() > 0 {
        assert(s.contains(s[0]));
    }
}

proof fn no_quote_no_end(s: Seq<char>)
    requires
        !s.contains('"'),
    ensures
        literal_body(s) is None,
    decreases s.len(),
{
    if s.len() > 0 {
        assert(s.contains(s[0]));
        assert forall|k: int| 0 <= k <= 2 && k <= s.len() implies !(#[trigger] s.skip(k)).contains(
            '"',
        ) by {
            let t = s.skip(k);
            if t.contains('"') {
                let i = choose|i: int| 0 <= i < t.len() && t[i] == '"';
                assert(s[k + i] == '"');
            }
        }
        no_quote_no_end(s.skip(1));
        if s.len() > 1 {
            no_quote_no_end(s.skip(2));
        }
    }
}

/// A text in quotes, escaped, reads as that text, whatever follows it.
pub proof fn literal_reads_what_is_written(s: Seq<char>, rest: Seq<char>)
    ensures
        literal(seq!['"'] + escaped(s) + seq!['"'] + rest) == Some(
            (s, (escaped(s).len() + 2) as nat),
        ),
{
    let all = seq!['"'] + escaped(s) + seq!['"'] + rest;
    assert(all.skip(1) =~= escaped(s) + seq!['"'] + rest);
    escaped_body_is_read_back(s, rest);
}

/// Strings character by character: a quote after a quote ends an empty one; any
/// character but a quote and a backslash stands for itself before what else is
/// written; after a backslash `n` stands for a line break, `t` for a tab, and any
/// other character for itself.
pub proof fn strings_grow_by_characters(c: char, body: Seq<char>, text: Seq<char>, rest: Seq<char>)
    requires
        literal(seq!['"'] + body + seq!['"'] + rest) == Some((text, (body.len() + 2) as nat)),
    ensures
        literal(seq!['"', '"'] + rest) == Some((Seq::<char>::empty(), 2nat)),
        c != '"' && c != '\\' ==> literal(seq!['"'] + (seq![c] + body) + seq!['"'] + rest) == Some(
            (seq![c] + text, (body.len() + 3) as nat),
        ),
        literal(seq!['"'] + (seq!['\\', c] + body) + seq!['"'] + rest) == Some(
            (
                seq![
                    if c == 'n' {
                        '\n'
                    } else if c == 't' {
                        '\t'
                    } else {
                        c
                    },
                ] + text,
                (body.len() + 4) as nat,
            ),
        ),
{
    let tail = body + seq!['"'] + rest;
    assert((seq!['"'] + body + seq!['"'] + rest).skip(1) =~= tail);
    assert(literal_body(tail) == Some((text, (body.len() + 1) as nat)));
    let none = seq!['"', '"'] + rest;
    assert(none.skip(1)[0] == '"');
    let plain = (seq!['"'] + (seq![c] + body) + seq!['"'] + rest).skip(1);
    assert(plain[0] == c);
    assert(plain.skip(1) =~= tail);
    let marked = (seq!['"'] + (seq!['\\', c] + body) + seq!['"'] + rest).skip(1);
    assert(marked[0] == '\\' && marked[1] == c);
    assert(marked.skip(2) =~= tail);
}

/// A text with a backslash before each quote and each backslash.
pub open spec fn backslashed(s: Seq<char>) -> Seq<char>
    decreases s.len(),
{
    if s.len() == 0 {
        s
    } else if s[0] == '"' || s[0] == '\\' {
        seq!['\\', s[0]] + backslashed(s.skip(1))
    } else {
        seq![s[0]] + backslashed(s.skip(1))
    }
}

/// Only quotes and backslashes need a backslash: with it a text in quotes reads as
/// that text, line breaks and tabs included.
pub proof fn backslashes_suffice(s: Seq<char>, rest: Seq<char>)
    ensures
        literal(seq!['"'] + backslashed(s) + seq!['"'] + rest) == Some(
            (s, (backslashed(s).len() + 2) as nat),
        ),
    decreases s.len(),
{
    if s.len() == 0 {
        let all = seq!['"'] + s + seq!['"'] + rest;
        assert(all.skip(1)[0] == '"');
        assert(s =~= Seq::empty());
    } else {
        let body = backslashed(s.skip(1));
        backslashes_suffice(s.skip(1), rest);
        strings_grow_by_characters(s[0], body, s.skip(1), rest);
        assert(seq![s[0]] + s.skip(1) =~= s);
    }
}

/// The text of the string literal that `s` starts with.
pub fn parse_string_literal(s: &[char]) -> (r: Option<String>)
    ensures
        match r {
            Some(t) => literal(s@) matches Some((text, _)) && t@ == text,
            None => literal(s@) is None,
        },
{
    if s.len() == 0 || s[0] != '"' {
        return None;
    }
    let mut out = String::new();
    let mut i: usize = 1;
    while i < s.len()
        invariant
            1 <= i <= s@.len(),
            literal_body(s@.skip(1)) == (match literal_body(s@.skip(i as int)) {
                Some((text, n)) => Some((out@ + text, (n + (i - 1)) as nat)),
                None => None,
            }),
            s@[0] == '"',
        decreases s@.len() - i,
    {
        let c = s[i];
        if c == '"' {
            assert(out@ + Seq::<char>::empty() =~= out@);
            return Some(out);
        } else if c == '\\' {
            if i + 1 >= s.len() {
                return None;
            }
            let e = s[i + 1];
            let d = if e == 'n' {
                '\n'
            } else if e == 't' {
                '\t'
            } else {
                e
            };
            let ghost before = out@;
            out.push(d);
            proof {
                assert(s@.skip(i as int).skip(2) =~= s@.skip(i + 2));
                if let Some((text, n)) = literal_body(s@.skip(i + 2)) {
                    assert(before + (seq![d] + text) =~= out@ + text);
                }
            }
            i += 2;
        } else {
            let ghost before = out@;
            out.push(c);
            proof {
                assert(s@.skip(i as int).skip(1) =~= s@.skip(i + 1));
                if let Some((text, n)) = literal_body(s@.skip(i + 1)) {
                    assert(before + (seq![c] + text) =~= out@ + text);
                }
            }
            i += 1;
        }
    }
    None
}

/// The length, in characters, of the string literal that `s` starts with.
pub fn string_literal_len(s: &[char]) -> (r: Option<usize>)
    ensures
        match r {
            Some(k) => literal(s@) matches Some((_, n)) && k == n,
            None => literal(s@) is None,
        },
{
    if s.len() == 0 || s[0] != '"' {
        return None;
    }
    let mut i: usize = 1;
    while i < s.len()
        invariant
            1 <= i <= s@.len(),
            s@[0] == '"',
            match literal_body(s@.skip(i as int)) {
                Some((_, n)) => literal_body(s@.skip(1)) matches Some((_, m)) && m == n + (i - 1),
                None => literal_body(s@.skip(1)) is None,
            },
        decreases s@.len() - i,
    {
        if s[i] == '\\' {
            if i + 1 >= s.len() {
                return None;
            }
            assert(s@.skip(i as int).skip(2) =~= s@.skip(i + 2));
            i += 2;
        } else if s[i] == '"' {
            return Some(i + 1);
        } else {
            assert(s@.skip(i as int).skip(1) =~= s@.skip(i + 1));
            i += 1;
        }
    }
    None
}

/// `s` up to the first `#` that stands in no string. A backslash in a string
/// takes the next character with it.
pub open spec fn uncommented(s: Seq<char>, in_string: bool) -> Seq<char>
    decreases s.len(),
{
    if s.len() == 0 {
        s
    } else if in_string && s[0] == '\\' {
        if s.len() < 2 {
            s
        } else {
            s.take(2) + uncommented(s.skip(2), true)
        }
    } else if s[0] == '"' {
        s.take(1) + uncommented(s.skip(1), !in_string)
    } else if s[0] == '#' && !in_string {
        Seq::empty()
    } else {
        s.take(1) + uncommented(s.skip(1), in_string)
    }
}

/// Whether a string is open after `s`, given whether one is open before; nothing
/// where a backslash in a string is the last character.
pub open spec fn open_after(s: Seq<char>, in_string: bool) -> Option<bool>
    decreases s.len(),
{
    if s.len() == 0 {
        Some(in_string)
    } else if in_string && s[0] == '\\' {
        if s.len() < 2 {
            None
        } else {
            open_after(s.skip(2), true)
        }
    } else if s[0] == '"' {
        open_after(s.skip(1), !in_string)
    } else {
        open_after(s.skip(1), in_string)
    }
}

/// What has no comment is kept, and decides whether a `#` after it starts one: it
/// does where no string is open, and it does not inside a string.
pub proof fn comment_starts_outside_strings(s: Seq<char>, in_string: bool, rest: Seq<char>)
    requires
        uncommented(s, in_string) == s,
    ensures
        open_after(s, in_string) matches Some(open) ==> uncommented(s + rest, in_string) == s
            + uncommented(rest, open),
        open_after(s, in_string) == Some(false) ==> uncommented(
            s + (seq!['#'] + rest),
            in_string,
        ) == s,
        open_after(s, in_string) == Some(true) ==> uncommented(s + (seq!['#'] + rest), in_string)
            == s + (seq!['#'] + uncommented(rest, true)),
{
    uncommented_goes_on(s, in_string, rest);
    uncommented_goes_on(s, in_string, seq!['#'] + rest);
    let marked = seq!['#'] + rest;
    assert(marked.skip(1) =~= rest);
    assert(marked.take(1) =~= seq!['#']);
    assert(s + Seq::<char>::empty() =~= s);
}

/// Comments are stripped from left to right.
proof fn uncommented_goes_on(s: Seq<char>, in_string: bool, rest: Seq<char>)
    requires
        uncommented(s, in_string) == s,
    ensures
        open_after(s, in_string) matches Some(open) ==> uncommented(s + rest, in_string) == s
            + uncommented(rest, open),
    decreases s.len(),
{
    let all = s + rest;
    if s.len() == 0 {
        assert(all =~= rest);
        assert(s + uncommented(rest, in_string) =~= uncommented(rest, in_string));
    } else {
        let k: int = if in_string && s[0] == '\\' {
            2
        } else {
            1
        };
        let open = if s[0] == '"' && !(in_string && s[0] == '\\') {
            !in_string
        } else {
            in_string
        };
        if s.len() >= k {
            let tail = s.skip(k);
            assert(uncommented(s, in_string) == s.take(k) + uncommented(tail, open));
            assert((s.take(k) + uncommented(tail, open)).skip(k) =~= uncommented(tail, open));
            uncommented_goes_on(tail, open, rest);
            assert(all.skip(k) =~= tail + rest);
            assert(all.take(k) =~= s.take(k));
            if let Some(end) = open_after(s, in_string) {
                assert(s.take(k) + (tail + uncommented(rest, end)) =~= s + uncommented(rest, end));
            }
        }
    }
}

/// What is left of a line after its comment is stripped stands at its start, and
/// has no comment.
pub proof fn stripping_twice_is_stripping_once(s: Seq<char>, in_string: bool)
    ensures
        starts(s, uncommented(s, in_string)),
        uncommented(uncommented(s, in_string), in_string) == uncommented(s, in_string),
    decreases s.len(),
{
    let u = uncommented(s, in_string);
    if s.len() == 0 || (in_string && s[0] == '\\' && s.len() < 2) {
        assert(s.take(s.len() as int) =~= s);
    } else if s[0] == '#' && !in_string {
        assert(s.take(0) =~= Seq::empty());
    } else {
        let k: int = if in_string && s[0] == '\\' {
            2
        } else {
            1
        };
        let open = if s[0] == '"' {
            !in_string
        } else {
            in_string
        };
        let tail = s.skip(k);
        stripping_twice_is_stripping_once(tail, open);
        let v = uncommented(tail, open);
        assert(u == s.take(k) + v);
        assert(u.take(k) =~= s.take(k));
        assert(u.skip(k) =~= v);
        assert(s.take(u.len() as int) =~= s.take(k) + tail.take(v.len() as int));
    }
}

/// The line up to its comment.
pub fn strip_inline_comment<'a>(line: &'a [char]) -> (r: &'a [char])
    ensures
        r@ == uncommented(line@, false),
{
    let n: usize = line.len();
    let mut in_string: bool = false;
    let mut i: usize = 0;
    assert(line@.skip(0) =~= line@);
    assert(line@.take(0) + uncommented(line@, false) =~= uncommented(line@, false));
    while i < n
        invariant
            i <= n,
            n == line@.len(),
            uncommented(line@, false) == line@.take(i as int) + uncommented(
                line@.skip(i as int),
                in_string,
            ),
        decreases n - i,
    {
        let ghost rest = line@.skip(i as int);
        if in_string && line[i] == '\\' {
            if i + 1 >= n {
                assert(line@.take(i as int) + rest =~= line@);
                return line;
            }
            assert(rest.skip(2) =~= line@.skip(i + 2));
            assert(line@.take(i as int) + (rest.take(2) + uncommented(rest.skip(2), true))
                =~= line@.take(i + 2) + uncommented(line@.skip(i + 2), true));
            i += 2;
        } else if line[i] == '"' {
            assert(rest.skip(1) =~= line@.skip(i + 1));
            assert(line@.take(i as int) + (rest.take(1) + uncommented(rest.skip(1), !in_string))
                =~= line@.take(i + 1) + uncommented(line@.skip(i + 1), !in_string));
            in_string = !in_string;
            i += 1;
        } else if line[i] == '#' && !in_string {
            let r = slice_subrange(line, 0, i);
            assert(r@ =~= line@.take(i as int) + Seq::<char>::empty());
            return r;
        } else {
            assert(rest.skip(1) =~= line@.skip(i + 1));
            assert(line@.take(i as int) + (rest.take(1) + uncommented(rest.skip(1), in_string))
                =~= line@.take(i + 1) + uncommented(line@.skip(i + 1), in_string));
            i += 1;
        }
    }
    assert(line@.take(n as int) + uncommented(line@.skip(n as int), in_string) =~= line@);
    line
}

// ---------------------------------------------------------------------
// Tokens
// ---------------------------------------------------------------------

/// A token, with text as its characters.
pub enum TokenView {
    Path(Seq<char>),
    Str(Seq<char>),
    Int(int),
    /// The number, and its canonical text.
    Float(Float, Seq<char>),
    Bool(bool),
    Op(CmpOp),
    And,
    Or,
    Not,
    LParen,
    RParen,
}

/// A token of a condition line.
#[derive(Debug)]
pub enum Token {
    Path(String),
    Str(String),
    Int(i64),
    /// The number, and its canonical text.
    Float(Float, String),
    Bool(bool),
    Op(CmpOp),
    And,
    Or,
    Not,
    LParen,
    RParen,
}

impl DeepView for Token {
    type V = TokenView;

    open spec fn deep_view(&self) -> TokenView {
        match self {
            Token::Path(p) => TokenView::Path(p@),
            Token::Str(s) => TokenView::Str(s@),
            Token::Int(n) => TokenView::Int(*n as int),
            Token::Float(v, shown) => TokenView::Float(*v, shown@),
            Token::Bool(b) => TokenView::Bool(*b),
            Token::Op(op) => TokenView::Op(*op),
            Token::And => TokenView::And,
            Token::Or => TokenView::Or,
            Token::Not => TokenView::Not,
            Token::LParen => TokenView::LParen,
            Token::RParen => TokenView::RParen,
        }
    }
}

impl Clone for Token {
    fn clone(&self) -> (r: Token)
        ensures
            r.deep_view() == self.deep_view(),
    {
        match self {
            Token::Path(p) => Token::Path(p.clone()),
            Token::Str(s) => Token::Str(s.clone()),
            Token::Int(n) => Token::Int(*n),
            Token::Float(v, shown) => Token::Float(*v, shown.clone()),
            Token::Bool(b) => Token::Bool(*b),
            Token::Op(op) => Token::Op(*op),
            Token::And => Token::And,
            Token::Or => Token::Or,
            Token::Not => Token::Not,
            Token::LParen => Token::LParen,
            Token::RParen => Token::RParen,
        }
    }
}

/// A character of a number: a digit or a dot.
pub open spec fn number_char(c: char) -> bool {
    digit(c) || c == '.'
}

/// A character of a word: one of an identifier, or a dot.
pub open spec fn word_char(c: char) -> bool {
    ident_char(c) || c == '.'
}

/// How many digits and dots `s` starts with.
pub open spec fn number_run(s: Seq<char>) -> nat
    decreases s.len(),
{
    if s.len() > 0 && number_char(s[0]) {
        1 + number_run(s.skip(1))
    } else {
        0
    }
}

/// How many characters of a word `s` starts with.
pub open spec fn word_run(s: Seq<char>) -> nat
    decreases s.len(),
{
    if s.len() > 0 && word_char(s[0]) {
        1 + word_run(s.skip(1))
    } else {
        0
    }
}

/// The number that `s` starts with, as it is written: an optional minus sign,
/// then digits and dots.
pub open spec fn number_text(s: Seq<char>) -> Seq<char> {
    if s.len() > 0 && s[0] == '-' {
        s.take(1 + number_run(s.skip(1)) as int)
    } else {
        s.take(number_run(s) as int)
    }
}

/// The word that `s` starts with.
pub open spec fn word_text(s: Seq<char>) -> Seq<char> {
    s.take(word_run(s) as int)
}

/// The character of the first byte of `c` in UTF-8, each byte read as the
/// character of the same code.
pub open spec fn lead_char(c: char) -> char {
    let n = c as u32;
    if n < 0x80 {
        c
    } else if n < 0x800 {
        (0xc0 + n / 64) as char
    } else if n < 0x10000 {
        (0xe0 + n / 4096) as char
    } else {
        (0xf0 + n / 262144) as char
    }
}

/// What a text starts with.
pub enum Lexed {
    /// A character between tokens.
    Blank,
    /// A token, and its length in characters.
    Token(TokenView, nat),
    /// Nothing that the language knows; a message.
    Bad(Seq<char>),
}

/// The token of a number.
pub open spec fn lex_number(text: Seq<char>, floats: FloatsView) -> Lexed {
    if text.contains('.') {
        if floats.contains_key(text) {
            Lexed::Token(TokenView::Float(floats[text].0, floats[text].1), text.len())
        } else {
            Lexed::Bad("bad float '"@ + text + "'"@)
        }
    } else {
        match signed_value(text) {
            Some(n) => Lexed::Token(TokenView::Int(n), text.len()),
            None => Lexed::Bad("bad int '"@ + text + "'"@),
        }
    }
}

/// The token of a word: the operators and truth values that are words, else a
/// field path.
pub open spec fn lex_word(word: Seq<char>) -> TokenView {
    if word == "contains"@ {
        TokenView::Op(CmpOp::Contains)
    } else if word == "startsWith"@ {
        TokenView::Op(CmpOp::StartsWith)
    } else if word == "true"@ {
        TokenView::Bool(true)
    } else if word == "false"@ {
        TokenView::Bool(false)
    } else {
        TokenView::Path(word)
    }
}

/// What `s`, which is not empty, starts with.
pub open spec fn lex(s: Seq<char>, floats: FloatsView) -> Lexed {
    let c = s[0];
    let twice = s.len() > 1 && s[1] == c;
    let equals = s.len() > 1 && s[1] == '=';
    if c as u32 <= 0x7f && white(c) {
        Lexed::Blank
    } else if c == '(' {
        Lexed::Token(TokenView::LParen, 1)
    } else if c == ')' {
        Lexed::Token(TokenView::RParen, 1)
    } else if c == '&' {
        if twice {
            Lexed::Token(TokenView::And, 2)
        } else {
            Lexed::Bad("expected '&&'"@)
        }
    } else if c == '|' {
        Lexed::Token(
            TokenView::Or,
            if twice {
                2
            } else {
                1
            },
        )
    } else if c == '=' {
        if equals {
            Lexed::Token(TokenView::Op(CmpOp::Eq), 2)
        } else {
            Lexed::Bad("expected '=='"@)
        }
    } else if c == '!' {
        if equals {
            Lexed::Token(TokenView::Op(CmpOp::Ne), 2)
        } else {
            Lexed::Token(TokenView::Not, 1)
        }
    } else if c == '<' {
        if equals {
            Lexed::Token(TokenView::Op(CmpOp::Le), 2)
        } else {
            Lexed::Token(TokenView::Op(CmpOp::Lt), 1)
        }
    } else if c == '>' {
        if equals {
            Lexed::Token(TokenView::Op(CmpOp::Ge), 2)
        } else {
            Lexed::Token(TokenView::Op(CmpOp::Gt), 1)
        }
    } else if c == '"' {
        match literal(s) {
            Some((text, n)) => Lexed::Token(TokenView::Str(text), n),
            None => Lexed::Bad("unterminated string literal"@),
        }
    } else if c == '-' || digit(c) {
        lex_number(number_text(s), floats)
    } else if letter(c) || c == '_' {
        Lexed::Token(lex_word(word_text(s)), word_run(s))
    } else {
        Lexed::Bad("unexpected character '"@ + seq![lead_char(c)] + "'"@)
    }
}

/// The tokens of `s`, or the message for the first place where it holds none.
pub open spec fn tokens_of(s: Seq<char>, floats: FloatsView) -> Result<Seq<TokenView>, Seq<char>>
    decreases s.len(),
{
    if s.len() == 0 {
        Ok(Seq::empty())
    } else {
        match lex(s, floats) {
            Lexed::Blank => tokens_of(s.skip(1), floats),
            Lexed::Bad(message) => Err(message),
            Lexed::Token(t, n) => if 0 < n <= s.len() {
                match tokens_of(s.skip(n as int), floats) {
                    Ok(rest) => Ok(seq![t] + rest),
                    Err(message) => Err(message),
                }
            } else {
                Err(Seq::empty())
            },
        }
    }
}

/// The texts in `s` that would be read as numbers with a dot, if a token started
/// there; one for each position, in order.
pub open spec fn float_texts(s: Seq<char>) -> Seq<Seq<char>>
    decreases s.len(),
{
    if s.len() == 0 {
        Seq::empty()
    } else {
        let text = number_text(s);
        let rest = float_texts(s.skip(1));
        if text.contains('.') {
            seq![text] + rest
        } else {
            rest
        }
    }
}

/// The texts of a suffix are among those of the whole.
proof fn agree_on_suffix(s: Seq<char>, n: int, a: FloatsView, b: FloatsView)
    requires
        0 <= n <= s.len(),
        agree(a, b, float_texts(s)),
    ensures
        agree(a, b, float_texts(s.skip(n))),
    decreases n,
{
    if n == 0 {
        assert(s.skip(0) =~= s);
    } else {
        if number_text(s).contains('.') {
            agree_on_parts(a, b, seq![number_text(s)], float_texts(s.skip(1)));
        }
        agree_on_suffix(s.skip(1), n - 1, a, b);
        assert(s.skip(1).skip(n - 1) =~= s.skip(n));
    }
}

/// The tokens of a text depend on the readings of its own numbers alone.
pub proof fn tokens_need_own_floats(s: Seq<char>, a: FloatsView, b: FloatsView)
    requires
        agree(a, b, float_texts(s)),
    ensures
        tokens_of(s, a) == tokens_of(s, b),
    decreases s.len(),
{
    if s.len() > 0 {
        lex_advances(s, a);
        let text = number_text(s);
        if text.contains('.') {
            agree_on_parts(a, b, seq![text], float_texts(s.skip(1)));
            assert(seq![text][0] == text);
        }
        assert(lex(s, a) == lex(s, b));
        agree_on_suffix(s, 1, a, b);
        tokens_need_own_floats(s.skip(1), a, b);
        if let Lexed::Token(t, n) = lex(s, a) {
            agree_on_suffix(s, n as int, a, b);
            tokens_need_own_floats(s.skip(n as int), a, b);
        }
    }
}

/// Appends the texts in `s` that would be read as numbers with a dot.
pub fn collect_float_texts(s: &[char], out: &mut Vec<String>)
    ensures
        final(out).deep_view() == old(out).deep_view() + float_texts(s@),
{
    let mut i: usize = 0;
    assert(s@.skip(0) =~= s@);
    while i < s.len()
        invariant
            i <= s@.len(),
            old(out).deep_view() + float_texts(s@) == out.deep_view() + float_texts(
                s@.skip(i as int),
            ),
        decreases s@.len() - i,
    {
        let rest = slice_subrange(s, i, s.len());
        assert(rest@ =~= s@.skip(i as int));
        assert(rest@.skip(1) =~= s@.skip(i + 1));
        let n: usize = number_len(rest);
        let text = slice_subrange(rest, 0, n);
        assert(text@ =~= number_text(rest@));
        if has_dot(text) {
            let ghost before = out.deep_view();
            out.push(from_chars(text));
            assert(out.deep_view() =~= before.push(text@));
            assert(before + (seq![text@] + float_texts(rest@.skip(1))) =~= out.deep_view()
                + float_texts(rest@.skip(1)));
        }
        i += 1;
    }
    assert(out.deep_view() + float_texts(s@.skip(i as int)) =~= out.deep_view());
}

/// A run lies within its text.
proof fn runs_fit(s: Seq<char>)
    ensures
        number_run(s) <= s.len(),
        word_run(s) <= s.len(),
    decreases s.len(),
{
    if s.len() > 0 {
        runs_fit(s.skip(1));
    }
}

/// A token is not empty, and lies within the text that it starts.
pub proof fn lex_advances(s: Seq<char>, floats: FloatsView)
    requires
        s.len() > 0,
    ensures
        lex(s, floats) matches Lexed::Token(t, n) ==> 0 < n <= s.len(),
{
    literal_fits(s);
    runs_fit(s);
    runs_fit(s.skip(1));
}

fn is_number_char(c: char) -> (r: bool)
    ensures
        r == number_char(c),
{
    is_digit(c) || c == '.'
}

fn is_word_char(c: char) -> (r: bool)
    ensures
        r == word_char(c),
{
    is_ident_char(c) || c == '.'
}

/// The length of the number that `s` starts with.
fn number_len(s: &[char]) -> (n: usize)
    ensures
        n <= s@.len(),
        s@.take(n as int) == number_text(s@),
        n == number_text(s@).len(),
{
    proof {
        runs_fit(s@);
        runs_fit(s@.skip(1));
    }
    let start: usize = if s.len() > 0 && s[0] == '-' {
        1
    } else {
        0
    };
    let mut i: usize = start;
    assert(s@.skip(0) =~= s@);
    while i < s.len() && is_number_char(s[i])
        invariant
            start <= i <= s@.len(),
            number_run(s@.skip(start as int)) == (i - start) + number_run(s@.skip(i as int)),
        decreases s@.len() - i,
    {
        assert(s@.skip(i as int).skip(1) =~= s@.skip(i + 1));
        i += 1;
    }
    i
}

/// The length of the word that `s` starts with.
fn word_len(s: &[char]) -> (n: usize)
    ensures
        n <= s@.len(),
        n == word_run(s@),
{
    let mut i: usize = 0;
    assert(s@.skip(0) =~= s@);
    while i < s.len() && is_word_char(s[i])
        invariant
            i <= s@.len(),
            word_run(s@) == i + word_run(s@.skip(i as int)),
        decreases s@.len() - i,
    {
        assert(s@.skip(i as int).skip(1) =~= s@.skip(i + 1));
        i += 1;
    }
    i
}

fn has_dot(s: &[char]) -> (r: bool)
    ensures
        r == s@.contains('.'),
{
    let mut i: usize = 0;
    while i < s.len()
        invariant
            i <= s@.len(),
            forall|k: int| 0 <= k < i ==> s@[k] != '.',
        decreases s@.len() - i,
    {
        if s[i] == '.' {
            assert(s@[i as int] == '.');
            return true;
        }
        i += 1;
    }
    false
}

fn lead_of(c: char) -> (r: char)
    ensures
        r == lead_char(c),
{
    let n: u32 = c as u32;
    if n < 0x80 {
        c
    } else if n < 0x800 {
        ((0xc0 + n / 64) as u8) as char
    } else if n < 0x10000 {
        ((0xe0 + n / 4096) as u8) as char
    } else {
        ((0xf0 + n / 262144) as u8) as char
    }
}

fn read_number(text: &[char], floats: &FloatTable) -> (r: Result<Token, String>)
    ensures
        match r {
            Ok(t) => lex_number(text@, floats@) == Lexed::Token(t.deep_view(), text@.len()),
            Err(message) => lex_number(text@, floats@) == Lexed::Bad(message@),
        },
{
    let num = from_chars(text);
    if has_dot(text) {
        match floats.get(num.as_str()) {
            Some(f) => Ok(Token::Float(f.value, f.shown.clone())),
            None => Err(join("bad float '", num.as_str(), "'")),
        }
    } else {
        match parse_i64(text) {
            Some(n) => Ok(Token::Int(n)),
            None => Err(join("bad int '", num.as_str(), "'")),
        }
    }
}

fn read_word(word: &[char]) -> (t: Token)
    ensures
        t.deep_view() == lex_word(word@),
{
    if is_text(word, "contains") {
        Token::Op(CmpOp::Contains)
    } else if is_text(word, "startsWith") {
        Token::Op(CmpOp::StartsWith)
    } else if is_text(word, "true") {
        Token::Bool(true)
    } else if is_text(word, "false") {
        Token::Bool(false)
    } else {
        Token::Path(from_chars(word))
    }
}

/// The token that `s` starts with and its length; nothing for a blank.
fn read_token(s: &[char], floats: &FloatTable) -> (r: Result<Option<(Token, usize)>, String>)
    requires
        s@.len() > 0,
    ensures
        match r {
            Ok(Some((t, n))) => lex(s@, floats@) == Lexed::Token(t.deep_view(), n as nat) && 0 < n
                <= s@.len(),
            Ok(None) => lex(s@, floats@) is Blank,
            Err(message) => lex(s@, floats@) == Lexed::Bad(message@),
        },
{
    proof {
        lex_advances(s@, floats@);
        runs_fit(s@);
    }
    let c = s[0];
    let twice: bool = s.len() > 1 && s[1] == c;
    let equals: bool = s.len() > 1 && s[1] == '=';
    if c as u32 <= 0x7f && is_white(c) {
        Ok(None)
    } else if c == '(' {
        Ok(Some((Token::LParen, 1)))
    } else if c == ')' {
        Ok(Some((Token::RParen, 1)))
    } else if c == '&' {
        if twice {
            Ok(Some((Token::And, 2)))
        } else {
            Err("expected '&&'".to_string())
        }
    } else if c == '|' {
        if twice {
            Ok(Some((Token::Or, 2)))
        } else {
            Ok(Some((Token::Or, 1)))
        }
    } else if c == '=' {
        if equals {
            Ok(Some((Token::Op(CmpOp::Eq), 2)))
        } else {
            Err("expected '=='".to_string())
        }
    } else if c == '!' {
        if equals {
            Ok(Some((Token::Op(CmpOp::Ne), 2)))
        } else {
            Ok(Some((Token::Not, 1)))
        }
    } else if c == '<' {
        if equals {
            Ok(Some((Token::Op(CmpOp::Le), 2)))
        } else {
            Ok(Some((Token::Op(CmpOp::Lt), 1)))
        }
    } else if c == '>' {
        if equals {
            Ok(Some((Token::Op(CmpOp::Ge), 2)))
        } else {
            Ok(Some((Token::Op(CmpOp::Gt), 1)))
        }
    } else if c == '"' {
        match (parse_string_literal(s), string_literal_len(s)) {
            (Some(text), Some(n)) => Ok(Some((Token::Str(text), n))),
            _ => Err("unterminated string literal".to_string()),
        }
    } else if c == '-' || is_digit(c) {
        let n: usize = number_len(s);
        let text = slice_subrange(s, 0, n);
        assert(text@ =~= s@.take(n as int));
        match read_number(text, floats) {
            Ok(t) => Ok(Some((t, n))),
            Err(message) => Err(message),
        }
    } else if is_letter(c) || c == '_' {
        let n: usize = word_len(s);
        let word = slice_subrange(s, 0, n);
        assert(word@ =~= word_text(s@));
        Ok(Some((read_word(word), n)))
    } else {
        let mut lead = String::new();
        lead.push(lead_of(c));
        assert(lead@ =~= seq![lead_char(c)]);
        Err(join("unexpected character '", lead.as_str(), "'"))
    }
}

/// Splits a condition into tokens.
pub fn tokenize(s: &[char], floats: &FloatTable) -> (r: Result<Vec<Token>, String>)
    ensures
        match r {
            Ok(ts) => tokens_of(s@, floats@) == Ok::<Seq<TokenView>, Seq<char>>(ts.deep_view()),
            Err(message) => tokens_of(s@, floats@) == Err::<Seq<TokenView>, Seq<char>>(message@),
        },
{
    let mut out: Vec<Token> = Vec::new();
    let mut i: usize = 0;
    proof {
        assert(s@.skip(0) =~= s@);
        if let Ok(rest) = tokens_of(s@, floats@) {
            assert(out.deep_view() + rest =~= rest);
        }
    }
    while i < s.len()
        invariant
            i <= s@.len(),
            tokens_of(s@, floats@) == (match tokens_of(s@.skip(i as int), floats@) {
                Ok(rest) => Ok::<Seq<TokenView>, Seq<char>>(out.deep_view() + rest),
                Err(message) => Err(message),
            }),
        decreases s@.len() - i,
    {
        let rest = slice_subrange(s, i, s.len());
        assert(rest@ =~= s@.skip(i as int));
        match read_token(rest, floats) {
            Err(message) => {
                return Err(message);
            },
            Ok(None) => {
                assert(rest@.skip(1) =~= s@.skip(i + 1));
                i += 1;
            },
            Ok(Some((t, n))) => {
                let ghost before = out.deep_view();
                let ghost tv = t.deep_view();
                out.push(t);
                proof {
                    assert(out.deep_view() =~= before.push(tv));
                    assert(rest@.skip(n as int) =~= s@.skip(i + n));
                    if let Ok(more) = tokens_of(s@.skip(i + n), floats@) {
                        assert(before + (seq![tv] + more) =~= out.deep_view() + more);
                    }
                }
                i += n;
            },
        }
    }
    assert(out.deep_view() + Seq::<TokenView>::empty() =~= out.deep_view());
    Ok(out)
}

} // verus!
