//! Parentheses and blanks: what they do to a condition, and what they do not.

use crate::ast::CondView;
use crate::expr::{
    and_at, and_rest, atom_at, comparison_at, expression_of, not_at, or_at, or_rest, parts_advance,
    token_at, Parsed,
};
use crate::floats::FloatsView;
use crate::lexer::{
    lex, lex_advances, literal_body, literal_fits, number_char, number_run, number_text, tokens_of,
    word_char, word_run, word_text, Lexed, TokenView,
};
use vstd::prelude::*;

verus! {

// ---------------------------------------------------------------------
// Tokens
// ---------------------------------------------------------------------

/// `ts` stands in `big` from position `d` on, with a closing parenthesis after it.
spec fn closed_in(ts: Seq<TokenView>, big: Seq<TokenView>, d: int) -> bool {
    &&& 0 <= d
    &&& d + ts.len() < big.len()
    &&& forall|i: int| 0 <= i < ts.len() ==> #[trigger] ts[i] == big[d + i]
    &&& big[d + ts.len()] == TokenView::RParen
}

/// The same condition, read further on.
spec fn moved(r: Parsed, d: int) -> Parsed {
    match r {
        Ok((c, q)) => Ok((c, q + d)),
        Err(e) => Err(e),
    }
}

proof fn same_token(ts: Seq<TokenView>, big: Seq<TokenView>, d: int, p: int)
    requires
        closed_in(ts, big, d),
        0 <= p <= ts.len(),
    ensures
        p < ts.len() ==> token_at(big, p + d) == token_at(ts, p),
        p == ts.len() ==> token_at(big, p + d) == Some(TokenView::RParen),
{
    if p < ts.len() {
        assert(ts[p] == big[d + p]);
    }
}

proof fn atom_inside(ts: Seq<TokenView>, big: Seq<TokenView>, d: int, p: int)
    requires
        closed_in(ts, big, d),
        0 <= p <= ts.len(),
        atom_at(ts, p) is Ok,
    ensures
        atom_at(big, p + d) == moved(atom_at(ts, p), d),
    decreases ts.len() - p, 1int,
{
    same_token(ts, big, d, p);
    parts_advance(ts, p, arbitrary());
    if token_at(ts, p) == Some(TokenView::LParen) {
        parts_advance(ts, p + 1, arbitrary());
        or_inside(ts, big, d, p + 1);
        assert(p + 1 + d == p + d + 1);
        same_token(ts, big, d, or_at(ts, p + 1)->Ok_0.1);
    } else {
        assert(p + 2 < ts.len());
        same_token(ts, big, d, p + 1);
        same_token(ts, big, d, p + 2);
        assert(p + 1 + d == p + d + 1 && p + 2 + d == p + d + 2);
        assert(comparison_at(big, p + d) == moved(comparison_at(ts, p), d));
    }
}

proof fn not_inside(ts: Seq<TokenView>, big: Seq<TokenView>, d: int, p: int)
    requires
        closed_in(ts, big, d),
        0 <= p <= ts.len(),
        not_at(ts, p) is Ok,
    ensures
        not_at(big, p + d) == moved(not_at(ts, p), d),
    decreases ts.len() - p, 2int,
{
    same_token(ts, big, d, p);
    parts_advance(ts, p, arbitrary());
    if token_at(ts, p) == Some(TokenView::Not) {
        not_inside(ts, big, d, p + 1);
        assert(p + 1 + d == p + d + 1);
    } else {
        atom_inside(ts, big, d, p);
    }
}

proof fn and_rest_inside(ts: Seq<TokenView>, big: Seq<TokenView>, d: int, left: CondView, p: int)
    requires
        closed_in(ts, big, d),
        0 <= p <= ts.len(),
        and_rest(ts, left, p) is Ok,
    ensures
        and_rest(big, left, p + d) == moved(and_rest(ts, left, p), d),
    decreases ts.len() - p, 3int,
{
    same_token(ts, big, d, p);
    parts_advance(ts, p, arbitrary());
    if token_at(ts, p) == Some(TokenView::And) {
        parts_advance(ts, p + 1, arbitrary());
        not_inside(ts, big, d, p + 1);
        assert(p + 1 + d == p + d + 1);
        let (right, q) = not_at(ts, p + 1)->Ok_0;
        and_rest_inside(ts, big, d, CondView::And(Box::new(left), Box::new(right)), q);
    }
}

proof fn and_inside(ts: Seq<TokenView>, big: Seq<TokenView>, d: int, p: int)
    requires
        closed_in(ts, big, d),
        0 <= p <= ts.len(),
        and_at(ts, p) is Ok,
    ensures
        and_at(big, p + d) == moved(and_at(ts, p), d),
    decreases ts.len() - p, 4int,
{
    same_token(ts, big, d, p);
    parts_advance(ts, p, arbitrary());
    not_inside(ts, big, d, p);
    let (c, q) = not_at(ts, p)->Ok_0;
    and_rest_inside(ts, big, d, c, q);
}

proof fn or_rest_inside(ts: Seq<TokenView>, big: Seq<TokenView>, d: int, left: CondView, p: int)
    requires
        closed_in(ts, big, d),
        0 <= p <= ts.len(),
        or_rest(ts, left, p) is Ok,
    ensures
        or_rest(big, left, p + d) == moved(or_rest(ts, left, p), d),
    decreases ts.len() - p, 5int,
{
    same_token(ts, big, d, p);
    parts_advance(ts, p, arbitrary());
    if token_at(ts, p) == Some(TokenView::Or) {
        parts_advance(ts, p + 1, arbitrary());
        and_inside(ts, big, d, p + 1);
        assert(p + 1 + d == p + d + 1);
        let (right, q) = and_at(ts, p + 1)->Ok_0;
        or_rest_inside(ts, big, d, CondView::Or(Box::new(left), Box::new(right)), q);
    }
}

/// What is read of tokens is read of them inside parentheses.
proof fn or_inside(ts: Seq<TokenView>, big: Seq<TokenView>, d: int, p: int)
    requires
        closed_in(ts, big, d),
        0 <= p <= ts.len(),
        or_at(ts, p) is Ok,
    ensures
        or_at(big, p + d) == moved(or_at(ts, p), d),
    decreases ts.len() - p, 6int,
{
    same_token(ts, big, d, p);
    parts_advance(ts, p, arbitrary());
    and_inside(ts, big, d, p);
    let (c, q) = and_at(ts, p)->Ok_0;
    or_rest_inside(ts, big, d, c, q);
}

/// Parenthesised tokens that stand in a line are read as what they are read as
/// alone.
proof fn read_parenthesised(ts: Seq<TokenView>, big: Seq<TokenView>, p: int, c: CondView)
    requires
        or_at(ts, 0) == Ok::<(CondView, int), Seq<char>>((c, ts.len() as int)),
        0 <= p,
        p < big.len(),
        big[p] == TokenView::LParen,
        closed_in(ts, big, p + 1),
    ensures
        not_at(big, p) == Ok::<(CondView, int), Seq<char>>((c, p + ts.len() + 2)),
{
    or_inside(ts, big, p + 1, 0);
    assert(or_at(big, 0 + (p + 1)) == Ok::<(CondView, int), Seq<char>>((c, ts.len() + (p + 1))));
    assert(0 + (p + 1) == p + 1);
    assert(token_at(big, p + 1 + ts.len()) == Some(TokenView::RParen));
    assert(atom_at(big, p) == Ok::<(CondView, int), Seq<char>>((c, p + ts.len() + 2)));
}

/// Parentheses mean nothing but grouping: tokens that are read as a condition are
/// read as the same condition in parentheses, whatever the condition is.
pub proof fn parentheses_only_group(ts: Seq<TokenView>, c: CondView)
    requires
        or_at(ts, 0) == Ok::<(CondView, int), Seq<char>>((c, ts.len() as int)),
    ensures
        or_at(seq![TokenView::LParen] + ts + seq![TokenView::RParen], 0) == Ok::<
            (CondView, int),
            Seq<char>,
        >((c, ts.len() as int + 2)),
{
    let big = seq![TokenView::LParen] + ts + seq![TokenView::RParen];
    read_parenthesised(ts, big, 0, c);
    assert(and_rest(big, c, big.len() as int) == Ok::<(CondView, int), Seq<char>>(
        (c, big.len() as int),
    ));
    assert(or_rest(big, c, big.len() as int) == Ok::<(CondView, int), Seq<char>>(
        (c, big.len() as int),
    ));
}

/// Two conditions in parentheses with `&&` between them are read as their
/// conjunction, with `||` between them as their disjunction, and one after `!` as
/// its negation, whatever the conditions are.
pub proof fn operators_join_groups(
    a: Seq<TokenView>,
    b: Seq<TokenView>,
    x: CondView,
    y: CondView,
)
    requires
        or_at(a, 0) == Ok::<(CondView, int), Seq<char>>((x, a.len() as int)),
        or_at(b, 0) == Ok::<(CondView, int), Seq<char>>((y, b.len() as int)),
    ensures
        ({
            let (l, r) = (seq![TokenView::LParen], seq![TokenView::RParen]);
            let n = a.len() as int + b.len() + 5;
            &&& or_at((l + a + r) + seq![TokenView::And] + (l + b + r), 0) == Ok::<
                (CondView, int),
                Seq<char>,
            >((CondView::And(Box::new(x), Box::new(y)), n))
            &&& or_at((l + a + r) + seq![TokenView::Or] + (l + b + r), 0) == Ok::<
                (CondView, int),
                Seq<char>,
            >((CondView::Or(Box::new(x), Box::new(y)), n))
            &&& or_at(seq![TokenView::Not] + (l + a + r), 0) == Ok::<(CondView, int), Seq<char>>(
                (CondView::Not(Box::new(x)), a.len() as int + 3),
            )
        }),
{
    let (l, r) = (seq![TokenView::LParen], seq![TokenView::RParen]);
    let both = (l + a + r) + seq![TokenView::And] + (l + b + r);
    let either = (l + a + r) + seq![TokenView::Or] + (l + b + r);
    let not = seq![TokenView::Not] + (l + a + r);
    let m = a.len() as int + 2;
    let n = a.len() as int + b.len() + 5;
    read_parenthesised(a, both, 0, x);
    read_parenthesised(b, both, m + 1, y);
    assert(token_at(both, m) == Some(TokenView::And));
    let and = CondView::And(Box::new(x), Box::new(y));
    assert(and_rest(both, and, n) == Ok::<(CondView, int), Seq<char>>((and, n)));
    assert(and_at(both, 0) == Ok::<(CondView, int), Seq<char>>((and, n)));
    assert(or_rest(both, and, n) == Ok::<(CondView, int), Seq<char>>((and, n)));

    read_parenthesised(a, either, 0, x);
    read_parenthesised(b, either, m + 1, y);
    assert(token_at(either, m) == Some(TokenView::Or));
    let or = CondView::Or(Box::new(x), Box::new(y));
    assert(and_rest(either, x, m) == Ok::<(CondView, int), Seq<char>>((x, m)));
    assert(and_at(either, 0) == Ok::<(CondView, int), Seq<char>>((x, m)));
    assert(and_rest(either, y, n) == Ok::<(CondView, int), Seq<char>>((y, n)));
    assert(and_at(either, m + 1) == Ok::<(CondView, int), Seq<char>>((y, n)));
    assert(or_rest(either, or, n) == Ok::<(CondView, int), Seq<char>>((or, n)));

    read_parenthesised(a, not, 1, x);
    let neg = CondView::Not(Box::new(x));
    let k = not.len() as int;
    assert(token_at(not, 0) == Some(TokenView::Not));
    assert(not_at(not, 0) == Ok::<(CondView, int), Seq<char>>((neg, k)));
    assert(and_rest(not, neg, k) == Ok::<(CondView, int), Seq<char>>((neg, k)));
    assert(or_rest(not, neg, k) == Ok::<(CondView, int), Seq<char>>((neg, k)));
}

// ---------------------------------------------------------------------
// Texts
// ---------------------------------------------------------------------

/// A text that ends the token before it: it starts with a blank or a closing
/// parenthesis.
pub open spec fn ends_token(tail: Seq<char>) -> bool {
    tail.len() > 0 && (tail[0] == ' ' || tail[0] == ')')
}

/// Runs of characters do not go on into such a text.
proof fn runs_end(s: Seq<char>, tail: Seq<char>)
    requires
        ends_token(tail),
    ensures
        number_run(s + tail) == number_run(s),
        word_run(s + tail) == word_run(s),
        number_run(s) <= s.len(),
        word_run(s) <= s.len(),
    decreases s.len(),
{
    let all = s + tail;
    if s.len() == 0 {
        assert(all =~= tail);
        assert(!number_char(tail[0]) && !word_char(tail[0]));
    } else {
        assert(all[0] == s[0]);
        assert(all.skip(1) =~= s.skip(1) + tail);
        runs_end(s.skip(1), tail);
    }
}

/// A string literal that is closed stays what it is.
proof fn literals_end(s: Seq<char>, tail: Seq<char>)
    ensures
        literal_body(s) is Some ==> literal_body(s + tail) == literal_body(s),
    decreases s.len(),
{
    let all = s + tail;
    if s.len() > 0 {
        assert(all[0] == s[0]);
        assert(all.skip(1) =~= s.skip(1) + tail);
        literals_end(s.skip(1), tail);
        if s.len() > 1 {
            assert(all[1] == s[1]);
            assert(all.skip(2) =~= s.skip(2) + tail);
            literals_end(s.skip(2), tail);
        }
    }
}

/// What a text starts with does not depend on such a text behind it.
proof fn lex_before(s: Seq<char>, tail: Seq<char>, floats: FloatsView)
    requires
        s.len() > 0,
        ends_token(tail),
        !(lex(s, floats) is Bad),
    ensures
        lex(s + tail, floats) == lex(s, floats),
{
    let all = s + tail;
    assert(all[0] == s[0]);
    if s.len() > 1 {
        assert(all[1] == s[1]);
    } else {
        assert(all[1] == tail[0]);
    }
    assert(all.skip(1) =~= s.skip(1) + tail);
    runs_end(s, tail);
    runs_end(s.skip(1), tail);
    literals_end(s.skip(1), tail);
    literal_fits(s);
    if s[0] == '-' {
        let n = 1 + number_run(s.skip(1));
        assert(all.take(n as int) =~= s.take(n as int));
    } else {
        assert(all.take(number_run(s) as int) =~= s.take(number_run(s) as int));
    }
    assert(number_text(all) == number_text(s));
    assert(word_text(all) =~= word_text(s));
}

/// The tokens of a text are followed by those of a text that starts with a blank or
/// a closing parenthesis.
pub proof fn tokens_go_on(s: Seq<char>, tail: Seq<char>, floats: FloatsView)
    requires
        ends_token(tail),
        tokens_of(s, floats) is Ok,
        tokens_of(tail, floats) is Ok,
    ensures
        tokens_of(s + tail, floats) == Ok::<Seq<TokenView>, Seq<char>>(
            tokens_of(s, floats)->Ok_0 + tokens_of(tail, floats)->Ok_0,
        ),
    decreases s.len(),
{
    let all = s + tail;
    let more = tokens_of(tail, floats)->Ok_0;
    if s.len() == 0 {
        assert(all =~= tail);
        assert(tokens_of(s, floats)->Ok_0 + more =~= more);
    } else {
        lex_before(s, tail, floats);
        lex_advances(s, floats);
        match lex(s, floats) {
            Lexed::Blank => {
                tokens_go_on(s.skip(1), tail, floats);
                assert(all.skip(1) =~= s.skip(1) + tail);
            },
            Lexed::Token(t, n) => {
                tokens_go_on(s.skip(n as int), tail, floats);
                assert(all.skip(n as int) =~= s.skip(n as int) + tail);
                let rest = tokens_of(s.skip(n as int), floats)->Ok_0;
                assert(seq![t] + (rest + more) =~= (seq![t] + rest) + more);
            },
            Lexed::Bad(_) => {},
        }
    }
}

/// Where what follows is refused, so is the whole.
pub proof fn refusals_go_on(s: Seq<char>, tail: Seq<char>, floats: FloatsView)
    requires
        ends_token(tail),
        tokens_of(s, floats) is Ok,
        tokens_of(tail, floats) is Err,
    ensures
        tokens_of(s + tail, floats) is Err,
    decreases s.len(),
{
    let all = s + tail;
    if s.len() == 0 {
        assert(all =~= tail);
    } else {
        lex_before(s, tail, floats);
        lex_advances(s, floats);
        match lex(s, floats) {
            Lexed::Blank => {
                refusals_go_on(s.skip(1), tail, floats);
                assert(all.skip(1) =~= s.skip(1) + tail);
            },
            Lexed::Token(t, n) => {
                refusals_go_on(s.skip(n as int), tail, floats);
                assert(all.skip(n as int) =~= s.skip(n as int) + tail);
            },
            Lexed::Bad(_) => {},
        }
    }
}

/// A blank before a text adds no token.
proof fn blank_before(s: Seq<char>, floats: FloatsView)
    ensures
        tokens_of(seq![' '] + s, floats) == tokens_of(s, floats),
{
    let all = seq![' '] + s;
    assert(all[0] == ' ');
    assert(all.skip(1) =~= s);
}

/// Two texts with a blank between them have the tokens of the one and then those of
/// the other.
pub proof fn blanks_part_tokens(a: Seq<char>, b: Seq<char>, floats: FloatsView)
    requires
        tokens_of(a, floats) is Ok,
        tokens_of(b, floats) is Ok,
    ensures
        tokens_of(a + (seq![' '] + b), floats) == Ok::<Seq<TokenView>, Seq<char>>(
            tokens_of(a, floats)->Ok_0 + tokens_of(b, floats)->Ok_0,
        ),
{
    blank_before(b, floats);
    tokens_go_on(a, seq![' '] + b, floats);
}

/// The tokens of a text in parentheses.
proof fn tokens_in_parentheses(s: Seq<char>, floats: FloatsView)
    requires
        tokens_of(s, floats) is Ok,
    ensures
        tokens_of(seq!['('] + s + seq![')'], floats) == Ok::<Seq<TokenView>, Seq<char>>(
            seq![TokenView::LParen] + tokens_of(s, floats)->Ok_0 + seq![TokenView::RParen],
        ),
{
    let all = seq!['('] + s + seq![')'];
    let tail = seq![')'];
    let ts = tokens_of(s, floats)->Ok_0;
    assert(tail.skip(1) =~= Seq::<char>::empty());
    assert(tokens_of(Seq::<char>::empty(), floats) == Ok::<Seq<TokenView>, Seq<char>>(
        Seq::empty(),
    ));
    assert(tail[0] == ')');
    assert(lex(tail, floats) == Lexed::Token(TokenView::RParen, 1));
    assert(seq![TokenView::RParen] + Seq::<TokenView>::empty() =~= seq![TokenView::RParen]);
    tokens_go_on(s, tail, floats);
    assert(all[0] == '(');
    assert(lex(all, floats) == Lexed::Token(TokenView::LParen, 1));
    assert(all.skip(1) =~= s + tail);
    assert(seq![TokenView::LParen] + (ts + seq![TokenView::RParen]) =~= seq![TokenView::LParen] + ts
        + seq![TokenView::RParen]);
}

/// A condition in parentheses is the same condition.
pub proof fn parenthesised_text_is_the_same(s: Seq<char>, c: CondView, floats: FloatsView)
    requires
        expression_of(s, floats) == Ok::<CondView, Seq<char>>(c),
    ensures
        expression_of(seq!['('] + s + seq![')'], floats) == Ok::<CondView, Seq<char>>(c),
{
    tokens_in_parentheses(s, floats);
    parentheses_only_group(tokens_of(s, floats)->Ok_0, c);
}

/// Two texts in parentheses with `&&` between them are the conjunction of what they
/// are alone, with `||` between them the disjunction, and one after `!` the
/// negation.
pub proof fn texts_are_joined_by_operators(
    a: Seq<char>,
    b: Seq<char>,
    x: CondView,
    y: CondView,
    floats: FloatsView,
)
    requires
        expression_of(a, floats) == Ok::<CondView, Seq<char>>(x),
        expression_of(b, floats) == Ok::<CondView, Seq<char>>(y),
    ensures
        ({
            let (l, r) = (seq!['('], seq![')']);
            let and = seq![' ', '&', '&', ' '];
            let or = seq![' ', '|', '|', ' '];
            &&& expression_of((l + a + r) + (and + (l + b + r)), floats) == Ok::<
                CondView,
                Seq<char>,
            >(CondView::And(Box::new(x), Box::new(y)))
            &&& expression_of((l + a + r) + (or + (l + b + r)), floats) == Ok::<
                CondView,
                Seq<char>,
            >(CondView::Or(Box::new(x), Box::new(y)))
            &&& expression_of(seq!['!'] + (l + a + r), floats) == Ok::<CondView, Seq<char>>(
                CondView::Not(Box::new(x)),
            )
        }),
{
    text_is_negated(a, x, floats);
    let (ta, tb) = (tokens_of(a, floats)->Ok_0, tokens_of(b, floats)->Ok_0);
    let (s, t) = (seq!['('] + a + seq![')'], seq!['('] + b + seq![')']);
    tokens_in_parentheses(a, floats);
    tokens_in_parentheses(b, floats);
    operators_join_groups(ta, tb, x, y);
    assert(expression_of(s + (seq![' ', '&', '&', ' '] + t), floats) == Ok::<CondView, Seq<char>>(
        CondView::And(Box::new(x), Box::new(y)),
    )) by {
        tokens_with_operator(s, t, '&', TokenView::And, floats);
    }
    assert(expression_of(s + (seq![' ', '|', '|', ' '] + t), floats) == Ok::<CondView, Seq<char>>(
        CondView::Or(Box::new(x), Box::new(y)),
    )) by {
        tokens_with_operator(s, t, '|', TokenView::Or, floats);
    }
}

proof fn text_is_negated(a: Seq<char>, x: CondView, floats: FloatsView)
    requires
        expression_of(a, floats) == Ok::<CondView, Seq<char>>(x),
    ensures
        expression_of(seq!['!'] + (seq!['('] + a + seq![')']), floats) == Ok::<
            CondView,
            Seq<char>,
        >(CondView::Not(Box::new(x))),
{
    let s = seq!['('] + a + seq![')'];
    let ta = tokens_of(a, floats)->Ok_0;
    let neg = seq!['!'] + s;
    tokens_in_parentheses(a, floats);
    assert(neg[0] == '!' && neg[1] == '(');
    assert(lex(neg, floats) == Lexed::Token(TokenView::Not, 1));
    assert(neg.skip(1) =~= s);
    operators_join_groups(ta, ta, x, x);
}

/// The tokens of two texts with an operator between them, in blanks.
proof fn tokens_with_operator(
    s: Seq<char>,
    t: Seq<char>,
    c: char,
    op: TokenView,
    floats: FloatsView,
)
    requires
        tokens_of(s, floats) is Ok,
        tokens_of(t, floats) is Ok,
        (c == '&' && op == TokenView::And) || (c == '|' && op == TokenView::Or),
    ensures
        tokens_of(s + (seq![' ', c, c, ' '] + t), floats) == Ok::<Seq<TokenView>, Seq<char>>(
            tokens_of(s, floats)->Ok_0 + seq![op] + tokens_of(t, floats)->Ok_0,
        ),
{
    let (ts, tt) = (tokens_of(s, floats)->Ok_0, tokens_of(t, floats)->Ok_0);
    let tail = seq![c, c] + (seq![' '] + t);
    blank_before(t, floats);
    assert(tail[0] == c && tail[1] == c);
    assert(lex(tail, floats) == Lexed::Token(op, 2));
    assert(tail.skip(2) =~= seq![' '] + t);
    blank_before(tail, floats);
    let whole = seq![' ', c, c, ' '] + t;
    assert(whole =~= seq![' '] + tail);
    assert(tokens_of(whole, floats) == Ok::<Seq<TokenView>, Seq<char>>(seq![op] + tt));
    assert(whole[0] == ' ');
    tokens_go_on(s, whole, floats);
    assert(ts + (seq![op] + tt) =~= ts + seq![op] + tt);
}

} // verus!
