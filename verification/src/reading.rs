//! How a line is read as a condition: which characters make which tokens, and
//! that every token counts.

use crate::accepting::signed_numerals_are_numbers;
use crate::ast::{path_of, CondView, KeyView, PathView};
use crate::event::{CmpOp, Float, Scalar};
use crate::expr::{
    and_at, and_rest, atom_at, comparison_at, expression_of, not_at, or_at, or_rest, quoted, shown,
    token_at,
};
use crate::floats::FloatsView;
use crate::grouping::refusals_go_on;
use crate::lexer::{
    escaped, float_texts, lex, literal_reads_what_is_written, number_run, number_text,
    open_strings_are_refused, tokens_of, word_run, Lexed, TokenView,
};
use crate::text::{all_digits, decimal, digit, ident_char, letter, number, white};
use vstd::prelude::*;

verus! {

// ---------------------------------------------------------------------
// Every token counts
// ---------------------------------------------------------------------

/// What a condition is written with, but for parentheses.
pub enum Leaf {
    Path(PathView),
    Op(CmpOp),
    Value(Scalar),
    And,
    Or,
    Not,
}

/// The parts of a condition as they are written, from left to right.
pub open spec fn leaves(c: CondView) -> Seq<Leaf>
    decreases c,
{
    match c {
        CondView::Compare { path, op, value } => seq![
            Leaf::Path(path),
            Leaf::Op(op),
            Leaf::Value(value),
        ],
        CondView::And(a, b) => leaves(*a) + seq![Leaf::And] + leaves(*b),
        CondView::Or(a, b) => leaves(*a) + seq![Leaf::Or] + leaves(*b),
        CondView::Not(a) => seq![Leaf::Not] + leaves(*a),
    }
}

/// What a token stands for; a parenthesis for nothing.
pub open spec fn leaf_of(t: TokenView) -> Seq<Leaf> {
    match t {
        TokenView::Path(s) => match path_of(s) {
            Some(path) => seq![Leaf::Path(path)],
            None => Seq::empty(),
        },
        TokenView::Int(n) => seq![Leaf::Value(Scalar::Int(n as i64))],
        TokenView::Float(x, _) => seq![Leaf::Value(Scalar::Float(x))],
        TokenView::Str(s) => seq![Leaf::Value(Scalar::Str(s))],
        TokenView::Bool(b) => seq![Leaf::Value(Scalar::Bool(b))],
        TokenView::Op(op) => seq![Leaf::Op(op)],
        TokenView::And => seq![Leaf::And],
        TokenView::Or => seq![Leaf::Or],
        TokenView::Not => seq![Leaf::Not],
        TokenView::LParen => Seq::empty(),
        TokenView::RParen => Seq::empty(),
    }
}

/// What some tokens stand for, from left to right.
pub open spec fn leaves_of(ts: Seq<TokenView>) -> Seq<Leaf>
    decreases ts.len(),
{
    if ts.len() == 0 {
        Seq::empty()
    } else {
        leaves_of(ts.drop_last()) + leaf_of(ts.last())
    }
}

/// How many parentheses are open after some tokens.
pub open spec fn depth(ts: Seq<TokenView>) -> int
    decreases ts.len(),
{
    if ts.len() == 0 {
        0
    } else {
        depth(ts.drop_last()) + match ts.last() {
            TokenView::LParen => 1int,
            TokenView::RParen => -1int,
            _ => 0int,
        }
    }
}

proof fn parts_join(ts: Seq<TokenView>, p: int, q: int, r: int)
    requires
        0 <= p <= q <= r <= ts.len(),
    ensures
        leaves_of(ts.subrange(p, r)) == leaves_of(ts.subrange(p, q)) + leaves_of(
            ts.subrange(q, r),
        ),
        depth(ts.subrange(p, r)) == depth(ts.subrange(p, q)) + depth(ts.subrange(q, r)),
    decreases r - q,
{
    let (a, b) = (ts.subrange(p, q), ts.subrange(q, r));
    if q == r {
        assert(leaves_of(b) =~= Seq::<Leaf>::empty());
        assert(leaves_of(a) + leaves_of(b) =~= leaves_of(a));
    } else {
        parts_join(ts, p, q, r - 1);
        assert(ts.subrange(p, r).drop_last() =~= ts.subrange(p, r - 1));
        assert(b.drop_last() =~= ts.subrange(q, r - 1));
        assert(ts.subrange(p, r).last() == b.last());
        let less = leaves_of(ts.subrange(q, r - 1));
        assert(leaves_of(a) + less + leaf_of(b.last()) =~= leaves_of(a) + (less + leaf_of(
            b.last(),
        )));
    }
}

proof fn one_token(ts: Seq<TokenView>, p: int)
    requires
        0 <= p < ts.len(),
    ensures
        leaves_of(ts.subrange(p, p + 1)) == leaf_of(ts[p]),
        depth(ts.subrange(p, p + 1)) == match ts[p] {
            TokenView::LParen => 1int,
            TokenView::RParen => -1int,
            _ => 0int,
        },
{
    let s = ts.subrange(p, p + 1);
    assert(s.drop_last() =~= Seq::empty());
    assert(s.last() == ts[p]);
    assert(leaves_of(s.drop_last()) =~= Seq::<Leaf>::empty());
    assert(depth(s.drop_last()) == 0);
    assert(Seq::<Leaf>::empty() + leaf_of(ts[p]) =~= leaf_of(ts[p]));
}

/// The tokens from `p` to `q` are those of the condition, in balanced parentheses.
spec fn reads_as(ts: Seq<TokenView>, p: int, q: int, c: CondView) -> bool {
    &&& 0 <= p <= q <= ts.len()
    &&& leaves_of(ts.subrange(p, q)) == leaves(c)
    &&& depth(ts.subrange(p, q)) == 0
}

proof fn comparison_counts(ts: Seq<TokenView>, p: int)
    requires
        0 <= p <= ts.len(),
    ensures
        comparison_at(ts, p) matches Ok((c, q)) ==> reads_as(ts, p, q, c),
{
    if let Ok((c, q)) = comparison_at(ts, p) {
        one_token(ts, p);
        one_token(ts, p + 1);
        one_token(ts, p + 2);
        parts_join(ts, p, p + 1, p + 2);
        parts_join(ts, p, p + 2, p + 3);
        assert(leaves_of(ts.subrange(p, q)) =~= leaves(c));
    }
}

proof fn atom_counts(ts: Seq<TokenView>, p: int)
    requires
        0 <= p <= ts.len(),
    ensures
        atom_at(ts, p) matches Ok((c, q)) ==> reads_as(ts, p, q, c),
    decreases ts.len() - p, 1int,
{
    if token_at(ts, p) == Some(TokenView::LParen) {
        or_counts(ts, p + 1);
        if let Ok((c, q)) = or_at(ts, p + 1) {
            if token_at(ts, q) == Some(TokenView::RParen) {
                one_token(ts, p);
                one_token(ts, q);
                parts_join(ts, p, p + 1, q);
                parts_join(ts, p, q, q + 1);
                assert(leaves_of(ts.subrange(p, q + 1)) =~= leaves(c));
            }
        }
    } else {
        comparison_counts(ts, p);
    }
}

proof fn not_counts(ts: Seq<TokenView>, p: int)
    requires
        0 <= p <= ts.len(),
    ensures
        not_at(ts, p) matches Ok((c, q)) ==> reads_as(ts, p, q, c),
    decreases ts.len() - p, 2int,
{
    if token_at(ts, p) == Some(TokenView::Not) {
        not_counts(ts, p + 1);
        if let Ok((c, q)) = not_at(ts, p + 1) {
            one_token(ts, p);
            parts_join(ts, p, p + 1, q);
        }
    } else {
        atom_counts(ts, p);
    }
}

proof fn and_rest_counts(ts: Seq<TokenView>, left: CondView, start: int, p: int)
    requires
        reads_as(ts, start, p, left),
    ensures
        and_rest(ts, left, p) matches Ok((c, q)) ==> reads_as(ts, start, q, c),
    decreases ts.len() - p, 3int,
{
    if token_at(ts, p) == Some(TokenView::And) {
        not_counts(ts, p + 1);
        if let Ok((right, q)) = not_at(ts, p + 1) {
            if p < q <= ts.len() {
                one_token(ts, p);
                parts_join(ts, start, p, p + 1);
                parts_join(ts, start, p + 1, q);
                and_rest_counts(ts, CondView::And(Box::new(left), Box::new(right)), start, q);
            }
        }
    }
}

proof fn and_counts(ts: Seq<TokenView>, p: int)
    requires
        0 <= p <= ts.len(),
    ensures
        and_at(ts, p) matches Ok((c, q)) ==> reads_as(ts, p, q, c),
    decreases ts.len() - p, 4int,
{
    not_counts(ts, p);
    if let Ok((c, q)) = not_at(ts, p) {
        if p < q <= ts.len() {
            and_rest_counts(ts, c, p, q);
        }
    }
}

proof fn or_rest_counts(ts: Seq<TokenView>, left: CondView, start: int, p: int)
    requires
        reads_as(ts, start, p, left),
    ensures
        or_rest(ts, left, p) matches Ok((c, q)) ==> reads_as(ts, start, q, c),
    decreases ts.len() - p, 5int,
{
    if token_at(ts, p) == Some(TokenView::Or) {
        and_counts(ts, p + 1);
        if let Ok((right, q)) = and_at(ts, p + 1) {
            if p < q <= ts.len() {
                one_token(ts, p);
                parts_join(ts, start, p, p + 1);
                parts_join(ts, start, p + 1, q);
                or_rest_counts(ts, CondView::Or(Box::new(left), Box::new(right)), start, q);
            }
        }
    }
}

proof fn or_counts(ts: Seq<TokenView>, p: int)
    requires
        0 <= p <= ts.len(),
    ensures
        or_at(ts, p) matches Ok((c, q)) ==> reads_as(ts, p, q, c),
    decreases ts.len() - p, 6int,
{
    and_counts(ts, p);
    if let Ok((c, q)) = and_at(ts, p) {
        if p < q <= ts.len() {
            or_rest_counts(ts, c, p, q);
        }
    }
}

/// Every token of a line that is read counts: the paths, operators and values of
/// the condition are those of the line, in order, and its parentheses are
/// balanced. A line without tokens is refused.
pub proof fn every_token_counts(s: Seq<char>, floats: FloatsView)
    ensures
        match expression_of(s, floats) {
            Ok(c) => tokens_of(s, floats) matches Ok(ts) && leaves_of(ts) == leaves(c) && depth(ts)
                == 0 && ts.len() > 0,
            Err(_) => true,
        },
        tokens_of(s, floats) is Err ==> expression_of(s, floats) is Err,
{
    if let Ok(ts) = tokens_of(s, floats) {
        or_counts(ts, 0);
        assert(ts.subrange(0, ts.len() as int) =~= ts);
    }
}

/// The field paths of a condition that was read are those of the line, in order.
pub proof fn paths_are_those_of_the_leaves(c: CondView)
    ensures
        c.paths() == paths_among(leaves(c)),
    decreases c,
{
    match c {
        CondView::Compare { path, op, value } => {
            let ls = leaves(c);
            let none = Seq::<Leaf>::empty();
            assert(ls.drop_last() =~= none.push(Leaf::Path(path)).push(Leaf::Op(op)));
            assert(ls.drop_last().drop_last() =~= none.push(Leaf::Path(path)));
            assert(ls.drop_last().drop_last().drop_last() =~= none);
            assert(paths_among(none) =~= Seq::<PathView>::empty());
            assert(ls.last() == Leaf::Value(value));
            assert(ls.drop_last().last() == Leaf::Op(op));
            assert(ls.drop_last().drop_last().last() == Leaf::Path(path));
            assert(paths_among(ls.drop_last().drop_last()) == paths_among(none).push(path));
            assert(paths_among(ls.drop_last()) == paths_among(none).push(path));
            assert(c.paths() =~= Seq::<PathView>::empty().push(path));
        },
        CondView::And(a, b) => {
            paths_are_those_of_the_leaves(*a);
            paths_are_those_of_the_leaves(*b);
            paths_join(leaves(*a), seq![Leaf::And]);
            paths_join(leaves(*a) + seq![Leaf::And], leaves(*b));
            no_path_in(Leaf::And);
            assert(a.paths() + Seq::<PathView>::empty() =~= a.paths());
        },
        CondView::Or(a, b) => {
            paths_are_those_of_the_leaves(*a);
            paths_are_those_of_the_leaves(*b);
            paths_join(leaves(*a), seq![Leaf::Or]);
            paths_join(leaves(*a) + seq![Leaf::Or], leaves(*b));
            no_path_in(Leaf::Or);
            assert(a.paths() + Seq::<PathView>::empty() =~= a.paths());
        },
        CondView::Not(a) => {
            paths_are_those_of_the_leaves(*a);
            paths_join(seq![Leaf::Not], leaves(*a));
            no_path_in(Leaf::Not);
            assert(Seq::<PathView>::empty() + a.paths() =~= a.paths());
        },
    }
}

/// The paths among the parts of a condition, in order.
pub open spec fn paths_among(ls: Seq<Leaf>) -> Seq<PathView>
    decreases ls.len(),
{
    if ls.len() == 0 {
        Seq::empty()
    } else {
        match ls.last() {
            Leaf::Path(path) => paths_among(ls.drop_last()).push(path),
            _ => paths_among(ls.drop_last()),
        }
    }
}

proof fn no_path_in(leaf: Leaf)
    requires
        !(leaf is Path),
    ensures
        paths_among(seq![leaf]) == Seq::<PathView>::empty(),
{
    assert(seq![leaf].drop_last() =~= Seq::empty());
    assert(paths_among(Seq::empty()) =~= Seq::<PathView>::empty());
}

proof fn paths_join(a: Seq<Leaf>, b: Seq<Leaf>)
    ensures
        paths_among(a + b) == paths_among(a) + paths_among(b),
    decreases b.len(),
{
    if b.len() == 0 {
        assert(a + b =~= a);
        assert(paths_among(a) + paths_among(b) =~= paths_among(a));
    } else {
        paths_join(a, b.drop_last());
        assert((a + b).drop_last() =~= a + b.drop_last());
        assert(paths_among(a + b) =~= paths_among(a) + paths_among(b));
    }
}

/// `seen`, and then the kinds of events of the paths, each at its first mention.
pub open spec fn first_mentions(seen: Seq<KeyView>, paths: Seq<PathView>) -> Seq<KeyView>
    decreases paths.len(),
{
    if paths.len() == 0 {
        seen
    } else {
        let before = first_mentions(seen, paths.drop_last());
        let key = (paths.last().module, paths.last().event_type);
        if before.contains(key) {
            before
        } else {
            before.push(key)
        }
    }
}

proof fn mentions_join(seen: Seq<KeyView>, a: Seq<PathView>, b: Seq<PathView>)
    ensures
        first_mentions(seen, a + b) == first_mentions(first_mentions(seen, a), b),
    decreases b.len(),
{
    if b.len() == 0 {
        assert(a + b =~= a);
    } else {
        mentions_join(seen, a, b.drop_last());
        assert((a + b).drop_last() =~= a + b.drop_last());
    }
}

/// The kinds of events of a condition come in the order of their first mention.
pub proof fn refs_come_in_order(c: CondView, seen: Seq<KeyView>)
    ensures
        c.refs_after(seen) == first_mentions(seen, c.paths()),
    decreases c,
{
    match c {
        CondView::Compare { path, .. } => {
            assert(seq![path].drop_last() =~= Seq::empty());
            assert(first_mentions(seen, Seq::empty()) == seen);
        },
        CondView::And(a, b) => {
            refs_come_in_order(*a, seen);
            refs_come_in_order(*b, a.refs_after(seen));
            mentions_join(seen, a.paths(), b.paths());
        },
        CondView::Or(a, b) => {
            refs_come_in_order(*a, seen);
            refs_come_in_order(*b, a.refs_after(seen));
            mentions_join(seen, a.paths(), b.paths());
        },
        CondView::Not(a) => {
            refs_come_in_order(*a, seen);
        },
    }
}

// ---------------------------------------------------------------------
// Tokens
// ---------------------------------------------------------------------

/// A token before further tokens, where there are any.
pub open spec fn followed(t: TokenView, rest: Result<Seq<TokenView>, Seq<char>>) -> Result<
    Seq<TokenView>,
    Seq<char>,
> {
    match rest {
        Ok(ts) => Ok(seq![t] + ts),
        Err(e) => Err(e),
    }
}

/// The operators and parentheses, by their characters, whatever follows them; `||`
/// may be written with one bar. Of `=` and `&` two are needed.
pub proof fn marks_are_tokens(rest: Seq<char>, floats: FloatsView)
    ensures
        ({
            let more = tokens_of(rest, floats);
            let next = |c: char| rest.len() > 0 && rest[0] == c;
            &&& tokens_of(seq!['('] + rest, floats) == followed(TokenView::LParen, more)
            &&& tokens_of(seq![')'] + rest, floats) == followed(TokenView::RParen, more)
            &&& tokens_of(seq!['&', '&'] + rest, floats) == followed(TokenView::And, more)
            &&& tokens_of(seq!['|', '|'] + rest, floats) == followed(TokenView::Or, more)
            &&& !next('|') ==> tokens_of(seq!['|'] + rest, floats) == followed(TokenView::Or, more)
            &&& tokens_of(seq!['=', '='] + rest, floats) == followed(TokenView::Op(CmpOp::Eq), more)
            &&& tokens_of(seq!['!', '='] + rest, floats) == followed(TokenView::Op(CmpOp::Ne), more)
            &&& tokens_of(seq!['<', '='] + rest, floats) == followed(TokenView::Op(CmpOp::Le), more)
            &&& tokens_of(seq!['>', '='] + rest, floats) == followed(TokenView::Op(CmpOp::Ge), more)
            &&& !next('=') ==> {
                &&& tokens_of(seq!['!'] + rest, floats) == followed(TokenView::Not, more)
                &&& tokens_of(seq!['<'] + rest, floats) == followed(TokenView::Op(CmpOp::Lt), more)
                &&& tokens_of(seq!['>'] + rest, floats) == followed(TokenView::Op(CmpOp::Gt), more)
                &&& tokens_of(seq!['='] + rest, floats) is Err
            }
            &&& !next('&') ==> tokens_of(seq!['&'] + rest, floats) is Err
        }),
{
    mark_is_token('(', rest, floats);
    mark_is_token(')', rest, floats);
    mark_is_token('|', rest, floats);
    mark_is_token('!', rest, floats);
    mark_is_token('<', rest, floats);
    mark_is_token('>', rest, floats);
    mark_is_token('=', rest, floats);
    mark_is_token('&', rest, floats);
    marks_are_token('&', '&', rest, floats);
    marks_are_token('|', '|', rest, floats);
    marks_are_token('=', '=', rest, floats);
    marks_are_token('!', '=', rest, floats);
    marks_are_token('<', '=', rest, floats);
    marks_are_token('>', '=', rest, floats);
}

proof fn mark_is_token(c: char, rest: Seq<char>, floats: FloatsView)
    requires
        !(c as u32 <= 0x7f && white(c)),
    ensures
        ({
            let s = seq![c] + rest;
            &&& s[0] == c
            &&& s.len() > 1 <==> rest.len() > 0
            &&& rest.len() > 0 ==> s[1] == rest[0]
            &&& lex(s, floats) matches Lexed::Token(t, n) ==> n == 1 ==> tokens_of(s, floats) == followed(
                t,
                tokens_of(rest, floats),
            )
            &&& lex(s, floats) is Bad ==> tokens_of(s, floats) is Err
        }),
{
    let s = seq![c] + rest;
    assert(s.skip(1) =~= rest);
}

proof fn marks_are_token(c: char, d: char, rest: Seq<char>, floats: FloatsView)
    ensures
        ({
            let s = seq![c, d] + rest;
            &&& s[0] == c
            &&& s[1] == d
            &&& s.len() > 1
            &&& lex(s, floats) matches Lexed::Token(t, n) ==> n == 2 ==> tokens_of(s, floats) == followed(
                t,
                tokens_of(rest, floats),
            )
        }),
{
    let s = seq![c, d] + rest;
    assert(s.skip(2) =~= rest);
}

/// White space of ASCII parts tokens and is none.
pub proof fn blanks_are_no_tokens(rest: Seq<char>, floats: FloatsView)
    ensures
        tokens_of(seq![' '] + rest, floats) == tokens_of(rest, floats),
        tokens_of(seq!['\t'] + rest, floats) == tokens_of(rest, floats),
        tokens_of(seq!['\r'] + rest, floats) == tokens_of(rest, floats),
        tokens_of(seq!['\n'] + rest, floats) == tokens_of(rest, floats),
        tokens_of(Seq::empty(), floats) == Ok::<Seq<TokenView>, Seq<char>>(Seq::empty()),
{
    assert((seq![' '] + rest).skip(1) =~= rest);
    assert((seq!['\t'] + rest).skip(1) =~= rest);
    assert((seq!['\r'] + rest).skip(1) =~= rest);
    assert((seq!['\n'] + rest).skip(1) =~= rest);
}

/// A character that starts no token.
pub open spec fn stranger(c: char) -> bool {
    &&& !letter(c) && !digit(c)
    &&& c != '_' && c != '-' && c != '"'
    &&& c != '(' && c != ')' && c != '!' && c != '<' && c != '>' && c != '=' && c != '&' && c != '|'
    &&& !(c as u32 <= 0x7f && white(c))
}

/// A character that starts no token is refused, at the start of a line and after
/// any tokens that a blank ends; so is a string that is not closed.
pub proof fn strangers_are_refused(
    before: Seq<char>,
    c: char,
    rest: Seq<char>,
    floats: FloatsView,
)
    requires
        stranger(c) || c == '"' && !rest.contains('"'),
    ensures
        tokens_of(seq![c] + rest, floats) is Err,
        tokens_of(before, floats) is Ok ==> tokens_of(
            before + (seq![' '] + (seq![c] + rest)),
            floats,
        ) is Err,
        tokens_of(before, floats) is Ok ==> expression_of(
            before + (seq![' '] + (seq![c] + rest)),
            floats,
        ) is Err,
{
    let s = seq![c] + rest;
    assert(s[0] == c);
    if c == '"' {
        open_strings_are_refused(rest);
    }
    blanks_are_no_tokens(s, floats);
    if tokens_of(before, floats) is Ok {
        refusals_go_on(before, seq![' '] + s, floats);
    }
}

/// A word is one token, up to the first character that is none of a word.
pub proof fn words_are_tokens(word: Seq<char>, rest: Seq<char>, floats: FloatsView)
    requires
        word.len() > 0,
        letter(word[0]) || word[0] == '_',
        forall|i: int| 0 <= i < word.len() ==> ident_char(#[trigger] word[i]) || word[i] == '.',
        rest.len() > 0 ==> !ident_char(rest[0]) && rest[0] != '.',
    ensures
        tokens_of(word + rest, floats) == followed(
            if word == "contains"@ {
                TokenView::Op(CmpOp::Contains)
            } else if word == "startsWith"@ {
                TokenView::Op(CmpOp::StartsWith)
            } else if word == "true"@ {
                TokenView::Bool(true)
            } else if word == "false"@ {
                TokenView::Bool(false)
            } else {
                TokenView::Path(word)
            },
            tokens_of(rest, floats),
        ),
{
    let s = word + rest;
    word_run_is(word, rest);
    assert(s[0] == word[0]);
    assert(s.take(word.len() as int) =~= word);
    assert(s.skip(word.len() as int) =~= rest);
    assert(!digit(word[0]) && word[0] != '-');
}

proof fn word_run_is(word: Seq<char>, rest: Seq<char>)
    requires
        forall|i: int| 0 <= i < word.len() ==> ident_char(#[trigger] word[i]) || word[i] == '.',
        rest.len() > 0 ==> !ident_char(rest[0]) && rest[0] != '.',
    ensures
        word_run(word + rest) == word.len(),
    decreases word.len(),
{
    let s = word + rest;
    if word.len() == 0 {
        assert(s =~= rest);
    } else {
        let less = word.skip(1);
        assert(s[0] == word[0]);
        assert(s.skip(1) =~= less + rest);
        assert forall|i: int| 0 <= i < less.len() implies ident_char(#[trigger] less[i]) || less[i]
            == '.' by {
            assert(ident_char(word[i + 1]) || word[i + 1] == '.');
        }
        word_run_is(less, rest);
    }
}

/// Digits are one number, with a minus sign or without; with a dot among them it is
/// the one that the table of numbers has, and without a dot that of the digits. One
/// that is none, or does not fit 64 bits, is refused.
pub proof fn digits_are_tokens(minus: bool, digits: Seq<char>, rest: Seq<char>, floats: FloatsView)
    requires
        forall|i: int| 0 <= i < digits.len() ==> digit(#[trigger] digits[i]) || digits[i] == '.',
        minus || digits.len() > 0 && digit(digits[0]),
        rest.len() > 0 ==> !digit(rest[0]) && rest[0] != '.',
    ensures
        ({
            let text = if minus {
                seq!['-'] + digits
            } else {
                digits
            };
            let all = tokens_of(text + rest, floats);
            let more = tokens_of(rest, floats);
            if digits.contains('.') {
                if floats.contains_key(text) {
                    all == followed(TokenView::Float(floats[text].0, floats[text].1), more)
                } else {
                    all is Err
                }
            } else if digits.len() == 0 {
                all is Err
            } else if minus {
                if number(digits) <= 0x8000_0000_0000_0000 {
                    all == followed(TokenView::Int(-(number(digits) as int)), more)
                } else {
                    all is Err
                }
            } else {
                if number(digits) <= 0x7fff_ffff_ffff_ffff {
                    all == followed(TokenView::Int(number(digits) as int), more)
                } else {
                    all is Err
                }
            }
        }),
{
    let text = if minus {
        seq!['-'] + digits
    } else {
        digits
    };
    let s = text + rest;
    let n = text.len() as int;
    number_run_is(digits, rest);
    assert(s[0] == text[0]);
    assert(s.take(n) =~= text);
    assert(s.skip(n) =~= rest);
    if minus {
        assert(s.skip(1) =~= digits + rest);
        if text.contains('.') {
            let i = choose|i: int| 0 <= i < text.len() && text[i] == '.';
            assert(digits[i - 1] == '.');
        }
        if digits.contains('.') {
            let i = choose|i: int| 0 <= i < digits.len() && digits[i] == '.';
            assert(text[i + 1] == '.');
        }
        assert(text.drop_first() =~= digits);
    }
    assert(number_text(s) == text);
    if !digits.contains('.') {
        assert forall|i: int| 0 <= i < digits.len() implies digit(#[trigger] digits[i]) by {
            assert(digits.contains(digits[i]));
        }
        assert(all_digits(digits));
        signed_numerals_are_numbers(digits);
        signed_numerals_are_numbers(text);
        if digits.len() > 0 {
            assert(digit(digits[0]));
        }
    }
}

proof fn number_run_is(digits: Seq<char>, rest: Seq<char>)
    requires
        forall|i: int| 0 <= i < digits.len() ==> digit(#[trigger] digits[i]) || digits[i] == '.',
        rest.len() > 0 ==> !digit(rest[0]) && rest[0] != '.',
    ensures
        number_run(digits + rest) == digits.len(),
    decreases digits.len(),
{
    let s = digits + rest;
    if digits.len() == 0 {
        assert(s =~= rest);
    } else {
        let less = digits.skip(1);
        assert(s[0] == digits[0]);
        assert(s.skip(1) =~= less + rest);
        assert forall|i: int| 0 <= i < less.len() implies digit(#[trigger] less[i]) || less[i]
            == '.' by {
            assert(digit(digits[i + 1]) || digits[i + 1] == '.');
        }
        number_run_is(less, rest);
    }
}

/// A string is one token: its text.
pub proof fn strings_are_tokens(text: Seq<char>, rest: Seq<char>, floats: FloatsView)
    ensures
        tokens_of(seq!['"'] + escaped(text) + seq!['"'] + rest, floats) == followed(
            TokenView::Str(text),
            tokens_of(rest, floats),
        ),
{
    let s = seq!['"'] + escaped(text) + seq!['"'] + rest;
    literal_reads_what_is_written(text, rest);
    assert(s[0] == '"');
    assert(s.skip(escaped(text).len() as int + 2) =~= rest);
}

// ---------------------------------------------------------------------
// Messages
// ---------------------------------------------------------------------

/// A line that starts like no condition is refused, and the message shows the first
/// token that does not fit: where a path, an operator or a value is missing, and
/// where something follows the condition.
pub proof fn first_misfit_is_shown(s: Seq<char>, ts: Seq<TokenView>, floats: FloatsView)
    requires
        tokens_of(s, floats) == Ok::<Seq<TokenView>, Seq<char>>(ts),
    ensures
        ({
            let at = |i: int| if i < ts.len() { Some(ts[i]) } else { None };
            let refused = |message: Seq<char>| expression_of(s, floats) == Err::<
                CondView,
                Seq<char>,
            >(message);
            &&& ts.len() == 0 ==> refused("empty expression"@)
            &&& ts.len() > 0 ==> match ts[0] {
                TokenView::LParen => true,
                TokenView::Not => true,
                TokenView::Path(p) => match path_of(p) {
                    None => refused("invalid field path '"@ + p + "'"@),
                    Some(path) => match at(1) {
                        Some(TokenView::Op(op)) => match at(2) {
                            Some(TokenView::Int(_)) => true,
                            Some(TokenView::Float(_, _)) => true,
                            Some(TokenView::Str(_)) => true,
                            Some(TokenView::Bool(_)) => true,
                            other => refused("expected value literal, got "@ + shown(other)),
                        },
                        other => refused("expected comparison operator, got "@ + shown(other)),
                    },
                },
                other => refused("expected field path, got "@ + shown(Some(other))),
            }
            &&& or_at(ts, 0) matches Ok((_, q)) ==> 0 < q < ts.len() ==> refused(
                "trailing tokens after expression in '"@ + s + "'"@,
            )
        }),
{
    if ts.len() > 0 {
        assert(atom_at(ts, 0) == comparison_at(ts, 0) || ts[0] == TokenView::LParen);
        assert(not_at(ts, 0) == atom_at(ts, 0) || ts[0] == TokenView::Not);
        assert(token_at(ts, 0) == Some(ts[0]));
        assert(and_at(ts, 0) is Err || not_at(ts, 0) is Ok);
    }
}

/// How messages show tokens.
pub proof fn tokens_are_shown(p: Seq<char>, n: int, x: Float, b: bool)
    ensures
        shown(None) == "None"@,
        shown(Some(TokenView::Path(p))) == "Some(Path(\""@ + p + "\"))"@,
        shown(Some(TokenView::Str(p))) == "Some(Str("@ + quoted(p) + "))"@,
        n >= 0 ==> shown(Some(TokenView::Int(n))) == "Some(Int("@ + decimal(n as nat) + "))"@,
        n < 0 ==> shown(Some(TokenView::Int(n))) == "Some(Int("@ + (seq!['-'] + decimal(
            (-n) as nat,
        )) + "))"@,
        shown(Some(TokenView::Float(x, p))) == "Some(Float("@ + p + "))"@,
        shown(Some(TokenView::Bool(true))) == "Some(Bool(true))"@,
        shown(Some(TokenView::Bool(false))) == "Some(Bool(false))"@,
        shown(Some(TokenView::Op(CmpOp::Eq))) == "Some(Op("@ + "Eq"@ + "))"@,
        shown(Some(TokenView::Op(CmpOp::Ne))) == "Some(Op("@ + "Ne"@ + "))"@,
        shown(Some(TokenView::Op(CmpOp::Lt))) == "Some(Op("@ + "Lt"@ + "))"@,
        shown(Some(TokenView::Op(CmpOp::Gt))) == "Some(Op("@ + "Gt"@ + "))"@,
        shown(Some(TokenView::Op(CmpOp::Le))) == "Some(Op("@ + "Le"@ + "))"@,
        shown(Some(TokenView::Op(CmpOp::Ge))) == "Some(Op("@ + "Ge"@ + "))"@,
        shown(Some(TokenView::Op(CmpOp::Contains))) == "Some(Op("@ + "Contains"@ + "))"@,
        shown(Some(TokenView::Op(CmpOp::StartsWith))) == "Some(Op("@ + "StartsWith"@ + "))"@,
        shown(Some(TokenView::And)) == "Some(And)"@,
        shown(Some(TokenView::Or)) == "Some(Or)"@,
        shown(Some(TokenView::Not)) == "Some(Not)"@,
        shown(Some(TokenView::LParen)) == "Some(LParen)"@,
        shown(Some(TokenView::RParen)) == "Some(RParen)"@,
{
}

/// The texts that a table of numbers has to tell: at every place where a number
/// with a dot would start, that number, and nothing else.
pub proof fn numbers_with_a_dot_are_listed(s: Seq<char>, k: int)
    requires
        0 <= k < s.len(),
    ensures
        ({
            let text = number_text(s.skip(k));
            (s[k] == '-' || digit(s[k])) && text.contains('.') ==> float_texts(s).contains(text)
        }),
        forall|i: int|
            0 <= i < float_texts(s).len() ==> (#[trigger] float_texts(s)[i]).contains('.'),
    decreases s.len(),
{
    let rest = s.skip(1);
    let here = number_text(s);
    assert(s.skip(0) =~= s);
    if rest.len() > 0 {
        let j = if k > 0 {
            k - 1
        } else {
            0
        };
        numbers_with_a_dot_are_listed(rest, j);
        assert(rest.skip(j) =~= s.skip(j + 1));
    }
    let all = float_texts(s);
    let more = float_texts(rest);
    assert forall|t: Seq<char>| more.contains(t) implies #[trigger] all.contains(t) by {
        let i = choose|i: int| 0 <= i < more.len() && more[i] == t;
        assert(all[all.len() - more.len() + i] == t);
    }
    assert(all.len() > more.len() ==> all[0] == here);
}

} // verus!
