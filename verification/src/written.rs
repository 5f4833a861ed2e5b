//! Conditions as they are written, and that they are read back.

use crate::ast::{path_of, path_reads_what_is_written, CondView};
use crate::event::{CmpOp, Scalar};
use crate::expr::{
    and_at, and_rest, atom_at, comparison_at, expression_of, not_at, or_at, or_rest, parts_advance,
    token_at,
};
use crate::floats::FloatsView;
use crate::lexer::{
    escaped, lex, literal_reads_what_is_written, number_char, number_run, number_text, tokens_of,
    word_char, word_run, word_text, Lexed, TokenView,
};
use crate::text::{
    all_digits, decimal, decimal_int, decimal_int_is_read_back, decimal_is_read_back, digit, letter,
};
use vstd::prelude::*;

verus! {

// ---------------------------------------------------------------------
// Tokens of a condition
// ---------------------------------------------------------------------

/// How tightly a place of a condition binds: what stands there goes in
/// parentheses where it binds weaker.
pub enum Place {
    /// The whole condition, or the left side of `||`.
    Or,
    /// The left side of `&&`, or the right side of `||`.
    And,
    /// After `!`, or the right side of `&&`.
    Not,
}

/// The token of a literal. `shown` is what a message shows of a float.
pub open spec fn token_of(value: Scalar, shown: Seq<char>) -> TokenView {
    match value {
        Scalar::Int(n) => TokenView::Int(n as int),
        Scalar::Float(v) => TokenView::Float(v, shown),
        Scalar::Str(s) => TokenView::Str(s),
        Scalar::Bool(b) => TokenView::Bool(b),
    }
}

/// Tokens in parentheses.
pub open spec fn in_parens(ts: Seq<TokenView>) -> Seq<TokenView> {
    seq![TokenView::LParen] + ts + seq![TokenView::RParen]
}

/// The tokens of a condition, with no more parentheses than it needs.
/// `shown` gives what a message shows of each float.
pub open spec fn tokens_for(c: CondView, place: Place, shown: spec_fn(Scalar) -> Seq<char>) -> Seq<
    TokenView,
>
    decreases c,
{
    match c {
        CondView::Compare { path, op, value } => seq![
            TokenView::Path(path.written()),
            TokenView::Op(op),
            token_of(value, shown(value)),
        ],
        CondView::Not(a) => seq![TokenView::Not] + tokens_for(*a, Place::Not, shown),
        CondView::And(a, b) => {
            let ts = tokens_for(*a, Place::And, shown) + seq![TokenView::And] + tokens_for(
                *b,
                Place::Not,
                shown,
            );
            if place is Not {
                in_parens(ts)
            } else {
                ts
            }
        },
        CondView::Or(a, b) => {
            let ts = tokens_for(*a, Place::Or, shown) + seq![TokenView::Or] + tokens_for(
                *b,
                Place::And,
                shown,
            );
            if place is Or {
                ts
            } else {
                in_parens(ts)
            }
        },
    }
}

/// Every path of the condition can be written and read back.
pub open spec fn writable(c: CondView) -> bool
    decreases c,
{
    match c {
        CondView::Compare { path, .. } => path.well_formed(),
        CondView::And(a, b) => writable(*a) && writable(*b),
        CondView::Or(a, b) => writable(*a) && writable(*b),
        CondView::Not(a) => writable(*a),
    }
}

/// `part` stands in `ts` from position `p` on.
pub open spec fn stands_at(ts: Seq<TokenView>, p: int, part: Seq<TokenView>) -> bool {
    0 <= p && p + part.len() <= ts.len() && ts.subrange(p, p + part.len()) == part
}

/// A part of what stands somewhere stands there too.
proof fn part_stands(
    ts: Seq<TokenView>,
    p: int,
    before: Seq<TokenView>,
    part: Seq<TokenView>,
    after: Seq<TokenView>,
)
    requires
        stands_at(ts, p, before + part + after),
    ensures
        stands_at(ts, p + before.len(), part),
        forall|i: int|
            0 <= i < after.len() ==> #[trigger] ts[p + before.len() + part.len() + i] == after[i],
        forall|i: int| 0 <= i < before.len() ==> #[trigger] ts[p + i] == before[i],
{
    let all = before + part + after;
    let sub = ts.subrange(p, p + all.len());
    let q = p + before.len();
    assert forall|i: int| 0 <= i < part.len() implies ts[q + i] == part[i] by {
        assert(sub[before.len() + i] == part[i]);
    }
    assert(ts.subrange(q, q + part.len()) =~= part);
    assert forall|i: int| 0 <= i < after.len() implies #[trigger] ts[p + before.len() + part.len()
        + i] == after[i] by {
        assert(sub[before.len() + part.len() + i] == after[i]);
    }
    assert forall|i: int| 0 <= i < before.len() implies #[trigger] ts[p + i] == before[i] by {
        assert(sub[i] == before[i]);
    }
}

/// A condition has at least one token.
proof fn tokens_are_there(c: CondView, place: Place, shown: spec_fn(Scalar) -> Seq<char>)
    ensures
        tokens_for(c, place, shown).len() > 0,
{
}

/// The order in which the places of one condition are gone through.
spec fn turn(c: CondView, place: Place) -> int {
    match (c, place) {
        (CondView::And(_, _), Place::And) => 0,
        (CondView::And(_, _), Place::Or) => 1,
        (CondView::And(_, _), Place::Not) => 2,
        (CondView::Or(_, _), Place::Or) => 0,
        (CondView::Or(_, _), Place::Not) => 1,
        (CondView::Or(_, _), Place::And) => 2,
        (_, Place::Not) => 0,
        (_, Place::And) => 1,
        (_, Place::Or) => 2,
    }
}

/// After `!` or on the right side of `&&`, a condition is read, whatever follows.
proof fn read_after_not(
    c: CondView,
    ts: Seq<TokenView>,
    p: int,
    shown: spec_fn(Scalar) -> Seq<char>,
)
    requires
        writable(c),
        stands_at(ts, p, tokens_for(c, Place::Not, shown)),
    ensures
        not_at(ts, p) == Ok::<(CondView, int), Seq<char>>(
            (c, p + tokens_for(c, Place::Not, shown).len()),
        ),
    decreases c, turn(c, Place::Not),
{
    let part = tokens_for(c, Place::Not, shown);
    let sub = ts.subrange(p, p + part.len());
    match c {
        CondView::Compare { path, op, value } => {
            path_reads_what_is_written(path.written(), path);
            assert(sub[0] == ts[p]);
            assert(sub[1] == ts[p + 1]);
            assert(sub[2] == ts[p + 2]);
            assert(comparison_at(ts, p) == Ok::<(CondView, int), Seq<char>>((c, p + 3)));
        },
        CondView::Not(a) => {
            let inner = tokens_for(*a, Place::Not, shown);
            assert(part =~= seq![TokenView::Not] + inner + Seq::<TokenView>::empty());
            part_stands(ts, p, seq![TokenView::Not], inner, Seq::empty());
            assert(ts[p + 0] == TokenView::Not);
            read_after_not(*a, ts, p + 1, shown);
        },
        _ => {
            let inner = tokens_for(c, Place::Or, shown);
            assert(part == in_parens(inner));
            part_stands(ts, p, seq![TokenView::LParen], inner, seq![TokenView::RParen]);
            assert(ts[p + 0] == TokenView::LParen);
            let q = p + 1 + inner.len();
            assert(ts[q + 0] == TokenView::RParen);
            read_whole(c, ts, p + 1, shown);
            assert(or_rest(ts, c, q) == Ok::<(CondView, int), Seq<char>>((c, q)));
            assert(atom_at(ts, p) == Ok::<(CondView, int), Seq<char>>((c, q + 1)));
        },
    }
}

/// On the left side of `&&` or the right side of `||`, a condition is read, and
/// what `&&` adds to it.
proof fn read_before_and(
    c: CondView,
    ts: Seq<TokenView>,
    p: int,
    shown: spec_fn(Scalar) -> Seq<char>,
)
    requires
        writable(c),
        stands_at(ts, p, tokens_for(c, Place::And, shown)),
    ensures
        and_at(ts, p) == and_rest(ts, c, p + tokens_for(c, Place::And, shown).len()),
    decreases c, turn(c, Place::And),
{
    let part = tokens_for(c, Place::And, shown);
    tokens_are_there(c, Place::And, shown);
    match c {
        CondView::And(a, b) => {
            let left = tokens_for(*a, Place::And, shown);
            let right = tokens_for(*b, Place::Not, shown);
            let mid = seq![TokenView::And];
            tokens_are_there(*b, Place::Not, shown);
            assert(part =~= Seq::<TokenView>::empty() + left + (mid + right));
            part_stands(ts, p, Seq::empty(), left, mid + right);
            read_before_and(*a, ts, p, shown);
            let q = p + left.len();
            assert(ts[q + 0] == (mid + right)[0]);
            assert(part =~= (left + mid) + right + Seq::<TokenView>::empty());
            part_stands(ts, p, left + mid, right, Seq::empty());
            read_after_not(*b, ts, q + 1, shown);
        },
        _ => {
            read_after_not(c, ts, p, shown);
        },
    }
}

/// As a whole, a condition is read, and what `||` adds to it, unless `&&`
/// follows.
proof fn read_whole(c: CondView, ts: Seq<TokenView>, p: int, shown: spec_fn(Scalar) -> Seq<char>)
    requires
        writable(c),
        stands_at(ts, p, tokens_for(c, Place::Or, shown)),
        token_at(ts, p + tokens_for(c, Place::Or, shown).len()) != Some(TokenView::And),
    ensures
        or_at(ts, p) == or_rest(ts, c, p + tokens_for(c, Place::Or, shown).len()),
    decreases c, turn(c, Place::Or),
{
    let part = tokens_for(c, Place::Or, shown);
    tokens_are_there(c, Place::Or, shown);
    let end = p + part.len();
    match c {
        CondView::Or(a, b) => {
            let left = tokens_for(*a, Place::Or, shown);
            let right = tokens_for(*b, Place::And, shown);
            let mid = seq![TokenView::Or];
            tokens_are_there(*b, Place::And, shown);
            assert(part =~= Seq::<TokenView>::empty() + left + (mid + right));
            part_stands(ts, p, Seq::empty(), left, mid + right);
            let q = p + left.len();
            assert(ts[q + 0] == (mid + right)[0]);
            read_whole(*a, ts, p, shown);
            assert(part =~= (left + mid) + right + Seq::<TokenView>::empty());
            part_stands(ts, p, left + mid, right, Seq::empty());
            read_before_and(*b, ts, q + 1, shown);
            assert(and_rest(ts, *b, end) == Ok::<(CondView, int), Seq<char>>((*b, end)));
        },
        _ => {
            read_before_and(c, ts, p, shown);
            assert(and_rest(ts, c, end) == Ok::<(CondView, int), Seq<char>>((c, end)));
        },
    }
}

/// Every condition whose paths can be written is what its tokens write: `||`
/// binds weakest, then `&&`, then `!`, the binary operators group to the left,
/// and parentheses override.
pub proof fn condition_is_read_back(c: CondView, shown: spec_fn(Scalar) -> Seq<char>)
    requires
        writable(c),
    ensures
        ({
            let ts = tokens_for(c, Place::Or, shown);
            or_at(ts, 0) == Ok::<(CondView, int), Seq<char>>((c, ts.len() as int))
        }),
{
    let ts = tokens_for(c, Place::Or, shown);
    assert(ts.subrange(0, ts.len() as int) =~= ts);
    read_whole(c, ts, 0, shown);
}

/// What is read can be written: every path of a condition that was read is one
/// that can be written and read back.
pub proof fn what_is_read_can_be_written(ts: Seq<TokenView>, p: int, left: CondView)
    requires
        0 <= p <= ts.len(),
    ensures
        atom_at(ts, p) matches Ok((c, _)) ==> writable(c),
        not_at(ts, p) matches Ok((c, _)) ==> writable(c),
        and_at(ts, p) matches Ok((c, _)) ==> writable(c),
        or_at(ts, p) matches Ok((c, _)) ==> writable(c),
        writable(left) ==> (and_rest(ts, left, p) matches Ok((c, _)) ==> writable(c)),
        writable(left) ==> (or_rest(ts, left, p) matches Ok((c, _)) ==> writable(c)),
    decreases ts.len() - p,
{
    parts_advance(ts, p, left);
    if let Some(TokenView::Path(s)) = token_at(ts, p) {
        if let Some(path) = path_of(s) {
            path_reads_what_is_written(s, path);
        }
    }
    assert(comparison_at(ts, p) matches Ok((c, _)) ==> writable(c));
    if p < ts.len() {
        parts_advance(ts, p + 1, left);
        what_is_read_can_be_written(ts, p + 1, left);
        if let Ok((right, q)) = not_at(ts, p + 1) {
            what_is_read_can_be_written(
                ts,
                q,
                CondView::And(Box::new(left), Box::new(right)),
            );
        }
        if let Ok((right, q)) = and_at(ts, p + 1) {
            what_is_read_can_be_written(
                ts,
                q,
                CondView::Or(Box::new(left), Box::new(right)),
            );
        }
    }
    assert(atom_at(ts, p) matches Ok((c, _)) ==> writable(c));
    assert(not_at(ts, p) matches Ok((c, _)) ==> writable(c));
    if let Ok((c, q)) = not_at(ts, p) {
        what_is_read_can_be_written(ts, q, c);
    }
    if let Ok((c, q)) = and_at(ts, p) {
        what_is_read_can_be_written(ts, q, c);
    }
}

// ---------------------------------------------------------------------
// The text of a condition
// ---------------------------------------------------------------------

/// The operator as it is written.
pub open spec fn op_text(op: CmpOp) -> Seq<char> {
    match op {
        CmpOp::Eq => "=="@,
        CmpOp::Ne => "!="@,
        CmpOp::Lt => "<"@,
        CmpOp::Gt => ">"@,
        CmpOp::Le => "<="@,
        CmpOp::Ge => ">="@,
        CmpOp::Contains => "contains"@,
        CmpOp::StartsWith => "startsWith"@,
    }
}

/// A token as it is written. `float` gives the text of each float.
pub open spec fn token_text(t: TokenView, float: spec_fn(TokenView) -> Seq<char>) -> Seq<char> {
    match t {
        TokenView::Path(p) => p,
        TokenView::Str(s) => seq!['"'] + escaped(s) + seq!['"'],
        TokenView::Int(n) => decimal_int(n),
        TokenView::Float(_, _) => float(t),
        TokenView::Bool(b) => if b {
            "true"@
        } else {
            "false"@
        },
        TokenView::Op(op) => op_text(op),
        TokenView::And => "&&"@,
        TokenView::Or => "||"@,
        TokenView::Not => "!"@,
        TokenView::LParen => "("@,
        TokenView::RParen => ")"@,
    }
}

/// Tokens as they are written, a blank after each.
pub open spec fn spelled(ts: Seq<TokenView>, float: spec_fn(TokenView) -> Seq<char>) -> Seq<char>
    decreases ts.len(),
{
    if ts.len() == 0 {
        Seq::empty()
    } else {
        token_text(ts[0], float) + seq![' '] + spelled(ts.skip(1), float)
    }
}

/// A word that is a field path: it starts with a letter or an underscore, and has
/// a dot.
pub open spec fn path_word(p: Seq<char>) -> bool {
    &&& p.len() > 0
    &&& letter(p[0]) || p[0] == '_'
    &&& forall|i: int| 0 <= i < p.len() ==> word_char(#[trigger] p[i])
    &&& p.contains('.')
}

/// The text of a number with a dot.
pub open spec fn float_word(text: Seq<char>) -> bool {
    &&& text.len() > 0
    &&& text[0] == '-' || digit(text[0])
    &&& forall|i: int| 1 <= i < text.len() ==> number_char(#[trigger] text[i])
    &&& text.contains('.')
}

/// The token can be written, and is what its text reads as.
pub open spec fn token_writable(
    t: TokenView,
    float: spec_fn(TokenView) -> Seq<char>,
    floats: FloatsView,
) -> bool {
    match t {
        TokenView::Path(p) => path_word(p),
        TokenView::Int(n) => i64::MIN <= n <= i64::MAX,
        TokenView::Float(v, shown) => {
            &&& float_word(float(t))
            &&& floats.contains_key(float(t))
            &&& floats[float(t)] == (v, shown)
        },
        _ => true,
    }
}

/// All of the tokens can be written.
pub open spec fn tokens_writable(
    ts: Seq<TokenView>,
    float: spec_fn(TokenView) -> Seq<char>,
    floats: FloatsView,
) -> bool {
    forall|i: int| 0 <= i < ts.len() ==> token_writable(#[trigger] ts[i], float, floats)
}

/// A run ends where its characters do.
proof fn run_ends(head: Seq<char>, tail: Seq<char>)
    requires
        tail.len() > 0,
    ensures
        (forall|i: int| 0 <= i < head.len() ==> word_char(#[trigger] head[i])) && !word_char(
            tail[0],
        ) ==> word_run(head + tail) == head.len(),
        (forall|i: int| 0 <= i < head.len() ==> number_char(#[trigger] head[i]))
            && !number_char(tail[0]) ==> number_run(head + tail) == head.len(),
    decreases head.len(),
{
    let all = head + tail;
    if head.len() == 0 {
        assert(all =~= tail);
    } else {
        let rest = head.skip(1);
        assert(all[0] == head[0]);
        assert(all.skip(1) =~= rest + tail);
        run_ends(rest, tail);
        assert forall|i: int| 0 <= i < rest.len() implies rest[i] == head[i + 1] by {}
    }
}

/// The text of a number is found where it stands.
proof fn number_is_found(text: Seq<char>, tail: Seq<char>)
    requires
        text.len() > 0,
        text[0] == '-' || number_char(text[0]),
        forall|i: int| 1 <= i < text.len() ==> number_char(#[trigger] text[i]),
        tail.len() > 0,
        !number_char(tail[0]),
    ensures
        number_text(text + tail) == text,
{
    let all = text + tail;
    assert(all[0] == text[0]);
    if text[0] == '-' {
        let rest = text.skip(1);
        assert(all.skip(1) =~= rest + tail);
        assert forall|i: int| 0 <= i < rest.len() implies number_char(#[trigger] rest[i]) by {
            assert(rest[i] == text[i + 1]);
        }
        run_ends(rest, tail);
        assert(all.take(text.len() as int) =~= text);
    } else {
        run_ends(text, tail);
        assert(all.take(text.len() as int) =~= text);
    }
}

/// The text of an integer is a number without a dot.
pub proof fn integer_text(n: int)
    ensures
        ({
            let text = decimal_int(n);
            &&& text.len() > 0
            &&& text[0] == '-' || digit(text[0])
            &&& forall|i: int| 1 <= i < text.len() ==> number_char(#[trigger] text[i])
            &&& !text.contains('.')
        }),
{
    let text = decimal_int(n);
    let digits = if n < 0 {
        decimal((-n) as nat)
    } else {
        decimal(n as nat)
    };
    let k: int = if n < 0 {
        1
    } else {
        0
    };
    decimal_is_read_back(
        if n < 0 {
            (-n) as nat
        } else {
            n as nat
        },
    );
    assert(all_digits(digits));
    assert forall|i: int| k <= i < text.len() implies digit(#[trigger] text[i]) by {
        assert(text[i] == digits[i - k]);
    }
}

/// The text of a token, before a blank, is read as that token.
proof fn token_is_read_back(
    t: TokenView,
    rest: Seq<char>,
    float: spec_fn(TokenView) -> Seq<char>,
    floats: FloatsView,
)
    requires
        token_writable(t, float, floats),
    ensures
        token_text(t, float).len() > 0,
        lex(token_text(t, float) + (seq![' '] + rest), floats) == Lexed::Token(
            t,
            token_text(t, float).len(),
        ),
{
    let text = token_text(t, float);
    let tail = seq![' '] + rest;
    let all = text + tail;
    assert(tail[0] == ' ');
    assert(!word_char(' ') && !number_char(' '));
    reveal_strlit("==");
    reveal_strlit("!=");
    reveal_strlit("<");
    reveal_strlit(">");
    reveal_strlit("<=");
    reveal_strlit(">=");
    reveal_strlit("contains");
    reveal_strlit("startsWith");
    reveal_strlit("true");
    reveal_strlit("false");
    reveal_strlit("&&");
    reveal_strlit("||");
    reveal_strlit("!");
    reveal_strlit("(");
    reveal_strlit(")");
    if text.len() > 0 {
        assert(all[0] == text[0]);
        if text.len() > 1 {
            assert(all[1] == text[1]);
        } else {
            assert(all[1] == ' ');
        }
    }
    match t {
        TokenView::Path(p) => {
            assert(word_char(p[0]));
            run_ends(p, tail);
            assert(word_text(all) =~= p);
            let dot = choose|i: int| 0 <= i < p.len() && p[i] == '.';
            assert(p != "contains"@ && p != "startsWith"@ && p != "true"@ && p != "false"@);
        },
        TokenView::Str(s) => {
            literal_reads_what_is_written(s, tail);
            assert(all =~= seq!['"'] + escaped(s) + seq!['"'] + tail);
        },
        TokenView::Int(n) => {
            integer_text(n);
            number_is_found(text, tail);
            decimal_int_is_read_back(n as i64);
        },
        TokenView::Float(_, _) => {
            number_is_found(text, tail);
        },
        TokenView::Bool(_) => {
            run_ends(text, tail);
            assert(word_text(all) =~= text);
            assert("true"@[0] == 't' && "false"@[0] == 'f');
            assert("contains"@[0] == 'c' && "startsWith"@[0] == 's');
        },
        TokenView::Op(op) => {
            if op is Contains || op is StartsWith {
                run_ends(text, tail);
                assert(word_text(all) =~= text);
                assert("contains"@[0] == 'c' && "startsWith"@[0] == 's');
            }
        },
        _ => {},
    }
}

/// Tokens are what their text reads as.
pub proof fn tokens_are_read_back(
    ts: Seq<TokenView>,
    float: spec_fn(TokenView) -> Seq<char>,
    floats: FloatsView,
)
    requires
        tokens_writable(ts, float, floats),
    ensures
        tokens_of(spelled(ts, float), floats) == Ok::<Seq<TokenView>, Seq<char>>(ts),
    decreases ts.len(),
{
    let text = spelled(ts, float);
    if ts.len() == 0 {
        assert(ts =~= Seq::empty());
    } else {
        let rest = ts.skip(1);
        let first = token_text(ts[0], float);
        let more = spelled(rest, float);
        assert(tokens_writable(rest, float, floats)) by {
            assert forall|i: int| 0 <= i < rest.len() implies token_writable(
                #[trigger] rest[i],
                float,
                floats,
            ) by {
                assert(rest[i] == ts[i + 1]);
            }
        }
        tokens_are_read_back(rest, float, floats);
        token_is_read_back(ts[0], more, float, floats);
        assert(text =~= first + (seq![' '] + more));
        let blank = text.skip(first.len() as int);
        assert(blank =~= seq![' '] + more);
        assert(blank[0] == ' ');
        assert(blank.skip(1) =~= more);
        assert(tokens_of(blank, floats) == tokens_of(more, floats));
        assert(seq![ts[0]] + rest =~= ts);
    }
}

/// Every path of the condition is a word, every integer and every float has a
/// text that reads as it.
pub open spec fn spellable(
    c: CondView,
    shown: spec_fn(Scalar) -> Seq<char>,
    float: spec_fn(TokenView) -> Seq<char>,
    floats: FloatsView,
) -> bool
    decreases c,
{
    match c {
        CondView::Compare { path, value, .. } => {
            &&& path.well_formed()
            &&& path_word(path.written())
            &&& token_writable(token_of(value, shown(value)), float, floats)
        },
        CondView::And(a, b) => spellable(*a, shown, float, floats) && spellable(
            *b,
            shown,
            float,
            floats,
        ),
        CondView::Or(a, b) => spellable(*a, shown, float, floats) && spellable(
            *b,
            shown,
            float,
            floats,
        ),
        CondView::Not(a) => spellable(*a, shown, float, floats),
    }
}

pub proof fn spellable_tokens(
    c: CondView,
    place: Place,
    shown: spec_fn(Scalar) -> Seq<char>,
    float: spec_fn(TokenView) -> Seq<char>,
    floats: FloatsView,
)
    requires
        spellable(c, shown, float, floats),
    ensures
        writable(c),
        tokens_writable(tokens_for(c, place, shown), float, floats),
    decreases c,
{
    match c {
        CondView::Compare { path, op, value } => {
            let ts = tokens_for(c, place, shown);
            let first = TokenView::Path(path.written());
            assert(ts =~= seq![first, TokenView::Op(op), token_of(value, shown(value))]);
            assert(token_writable(first, float, floats));
            assert(token_writable(TokenView::Op(op), float, floats));
        },
        CondView::And(a, b) => {
            spellable_tokens(*a, Place::And, shown, float, floats);
            spellable_tokens(*b, Place::Not, shown, float, floats);
        },
        CondView::Or(a, b) => {
            spellable_tokens(*a, Place::Or, shown, float, floats);
            spellable_tokens(*b, Place::And, shown, float, floats);
        },
        CondView::Not(a) => {
            spellable_tokens(*a, Place::Not, shown, float, floats);
        },
    }
}

/// Every condition that can be spelled is what its text is parsed to.
pub proof fn expression_reads_what_is_written(
    c: CondView,
    shown: spec_fn(Scalar) -> Seq<char>,
    float: spec_fn(TokenView) -> Seq<char>,
    floats: FloatsView,
)
    requires
        spellable(c, shown, float, floats),
    ensures
        expression_of(spelled(tokens_for(c, Place::Or, shown), float), floats) == Ok::<
            CondView,
            Seq<char>,
        >(c),
{
    let ts = tokens_for(c, Place::Or, shown);
    spellable_tokens(c, Place::Or, shown, float, floats);
    tokens_are_read_back(ts, float, floats);
    condition_is_read_back(c, shown);
    tokens_are_there(c, Place::Or, shown);
}

} // verus!
