//! Conditions: a recursive-descent parser over the tokens of a line.
//!
//! `||` binds weakest, then `&&`, then `!`; the two binary operators group to
//! the left. A comparison is a field path, an operator and a literal.

use crate::ast::{path_of, CondView, Condition, FieldPath};
use crate::event::{CmpOp, RuleValue, Scalar};
use crate::floats::{FloatTable, FloatsView};
use crate::lexer::{tokenize, tokens_of, Token, TokenView};
use crate::text::{decimal_int, join, push_decimal_int, to_chars};
use vstd::prelude::*;
use vstd::string::StringExecFns;

verus! {

// ---------------------------------------------------------------------
// Tokens in messages
// ---------------------------------------------------------------------

/// A text in quotes, as the `Debug` form of `str` writes it.
pub uninterp spec fn quoted(s: Seq<char>) -> Seq<char>;

/// The `Debug` form of `str`, by `format!`: the text in double quotes, with
/// what is not printable escaped. The form depends on the text alone.
#[verifier::external_body]
fn quote(s: &str) -> (r: String)
    ensures
        r@ == quoted(s@),
{
    format!("{:?}", s)
}

/// The name of an operator.
pub open spec fn op_name(op: CmpOp) -> Seq<char> {
    match op {
        CmpOp::Eq => "Eq"@,
        CmpOp::Ne => "Ne"@,
        CmpOp::Lt => "Lt"@,
        CmpOp::Gt => "Gt"@,
        CmpOp::Le => "Le"@,
        CmpOp::Ge => "Ge"@,
        CmpOp::Contains => "Contains"@,
        CmpOp::StartsWith => "StartsWith"@,
    }
}

/// A token as a message shows it; `None` stands for the end of the line. `q` is
/// what stands for the text of a string.
pub open spec fn shown_with(t: Option<TokenView>, q: Seq<char>) -> Seq<char> {
    match t {
        None => "None"@,
        Some(TokenView::Path(p)) => "Some(Path(\""@ + p + "\"))"@,
        Some(TokenView::Str(_)) => "Some(Str("@ + q + "))"@,
        Some(TokenView::Int(n)) => "Some(Int("@ + decimal_int(n) + "))"@,
        Some(TokenView::Float(_, text)) => "Some(Float("@ + text + "))"@,
        Some(TokenView::Bool(b)) => if b {
            "Some(Bool(true))"@
        } else {
            "Some(Bool(false))"@
        },
        Some(TokenView::Op(op)) => "Some(Op("@ + op_name(op) + "))"@,
        Some(TokenView::And) => "Some(And)"@,
        Some(TokenView::Or) => "Some(Or)"@,
        Some(TokenView::Not) => "Some(Not)"@,
        Some(TokenView::LParen) => "Some(LParen)"@,
        Some(TokenView::RParen) => "Some(RParen)"@,
    }
}

/// A token as a message shows it, with the text of a string in quotes.
pub open spec fn shown(t: Option<TokenView>) -> Seq<char> {
    shown_with(
        t,
        match t {
            Some(TokenView::Str(s)) => quoted(s),
            _ => Seq::empty(),
        },
    )
}

fn name_of_op(op: CmpOp) -> (r: String)
    ensures
        r@ == op_name(op),
{
    match op {
        CmpOp::Eq => "Eq".to_string(),
        CmpOp::Ne => "Ne".to_string(),
        CmpOp::Lt => "Lt".to_string(),
        CmpOp::Gt => "Gt".to_string(),
        CmpOp::Le => "Le".to_string(),
        CmpOp::Ge => "Ge".to_string(),
        CmpOp::Contains => "Contains".to_string(),
        CmpOp::StartsWith => "StartsWith".to_string(),
    }
}

/// A token in the form that messages show, with `q` for the text of a string.
pub fn show(t: &Option<Token>, q: &str) -> (r: String)
    ensures
        r@ == shown_with(t.deep_view(), q@),
{
    match t {
        None => "None".to_string(),
        Some(Token::Path(p)) => join("Some(Path(\"", p.as_str(), "\"))"),
        Some(Token::Str(_)) => join("Some(Str(", q, "))"),
        Some(Token::Int(n)) => {
            let mut d = String::new();
            push_decimal_int(&mut d, *n);
            assert(d@ =~= decimal_int(*n as int));
            join("Some(Int(", d.as_str(), "))")
        },
        Some(Token::Float(_, text)) => join("Some(Float(", text.as_str(), "))"),
        Some(Token::Bool(b)) => if *b {
            "Some(Bool(true))".to_string()
        } else {
            "Some(Bool(false))".to_string()
        },
        Some(Token::Op(op)) => {
            let name = name_of_op(*op);
            join("Some(Op(", name.as_str(), "))")
        },
        Some(Token::And) => "Some(And)".to_string(),
        Some(Token::Or) => "Some(Or)".to_string(),
        Some(Token::Not) => "Some(Not)".to_string(),
        Some(Token::LParen) => "Some(LParen)".to_string(),
        Some(Token::RParen) => "Some(RParen)".to_string(),
    }
}

/// `message`, and after it the token in the form that messages show.
fn say(message: &str, t: &Option<Token>) -> (r: String)
    ensures
        r@ == message@ + shown(t.deep_view()),
{
    let q = match t {
        Some(Token::Str(s)) => quote(s.as_str()),
        _ => String::new(),
    };
    assert(t.deep_view() matches Some(TokenView::Str(_)) || q@ =~= Seq::empty());
    let text = show(t, q.as_str());
    let mut r = message.to_string();
    r.append(text.as_str());
    r
}

// ---------------------------------------------------------------------
// The language of conditions
// ---------------------------------------------------------------------

/// A condition and the position after it, or a message.
pub type Parsed = Result<(CondView, int), Seq<char>>;

/// The token at a position.
pub open spec fn token_at(ts: Seq<TokenView>, p: int) -> Option<TokenView> {
    if 0 <= p < ts.len() {
        Some(ts[p])
    } else {
        None
    }
}

/// The value of a literal token.
pub open spec fn value_of(t: Option<TokenView>) -> Option<Scalar> {
    match t {
        Some(TokenView::Int(n)) => Some(Scalar::Int(n as i64)),
        Some(TokenView::Float(v, _)) => Some(Scalar::Float(v)),
        Some(TokenView::Str(s)) => Some(Scalar::Str(s)),
        Some(TokenView::Bool(b)) => Some(Scalar::Bool(b)),
        _ => None,
    }
}

/// A comparison: a field path, an operator and a literal.
pub open spec fn comparison_at(ts: Seq<TokenView>, p: int) -> Parsed {
    match token_at(ts, p) {
        Some(TokenView::Path(s)) => match path_of(s) {
            Some(path) => match token_at(ts, p + 1) {
                Some(TokenView::Op(op)) => match value_of(token_at(ts, p + 2)) {
                    Some(value) => Ok((CondView::Compare { path, op, value }, p + 3)),
                    None => Err("expected value literal, got "@ + shown(token_at(ts, p + 2))),
                },
                other => Err("expected comparison operator, got "@ + shown(other)),
            },
            None => Err("invalid field path '"@ + s + "'"@),
        },
        other => Err("expected field path, got "@ + shown(other)),
    }
}

/// A condition in parentheses, or a comparison.
pub open spec fn atom_at(ts: Seq<TokenView>, p: int) -> Parsed
    decreases ts.len() - p, 1int,
{
    if token_at(ts, p) == Some(TokenView::LParen) {
        match or_at(ts, p + 1) {
            Ok((c, q)) => if token_at(ts, q) == Some(TokenView::RParen) {
                Ok((c, q + 1))
            } else {
                Err("expected ')'"@)
            },
            Err(e) => Err(e),
        }
    } else {
        comparison_at(ts, p)
    }
}

/// An atom after any number of `!`.
pub open spec fn not_at(ts: Seq<TokenView>, p: int) -> Parsed
    decreases ts.len() - p, 2int,
{
    if token_at(ts, p) == Some(TokenView::Not) {
        match not_at(ts, p + 1) {
            Ok((c, q)) => Ok((CondView::Not(Box::new(c)), q)),
            Err(e) => Err(e),
        }
    } else {
        atom_at(ts, p)
    }
}

/// What `&&` adds to a condition that ends at `p`.
pub open spec fn and_rest(ts: Seq<TokenView>, left: CondView, p: int) -> Parsed
    decreases ts.len() - p, 3int,
{
    if token_at(ts, p) == Some(TokenView::And) {
        match not_at(ts, p + 1) {
            Ok((right, q)) => if p < q <= ts.len() {
                and_rest(ts, CondView::And(Box::new(left), Box::new(right)), q)
            } else {
                Err(Seq::empty())
            },
            Err(e) => Err(e),
        }
    } else {
        Ok((left, p))
    }
}

/// Negations joined by `&&`.
pub open spec fn and_at(ts: Seq<TokenView>, p: int) -> Parsed
    decreases ts.len() - p, 4int,
{
    match not_at(ts, p) {
        Ok((c, q)) => if p < q <= ts.len() {
            and_rest(ts, c, q)
        } else {
            Err(Seq::empty())
        },
        Err(e) => Err(e),
    }
}

/// What `||` adds to a condition that ends at `p`.
pub open spec fn or_rest(ts: Seq<TokenView>, left: CondView, p: int) -> Parsed
    decreases ts.len() - p, 5int,
{
    if token_at(ts, p) == Some(TokenView::Or) {
        match and_at(ts, p + 1) {
            Ok((right, q)) => if p < q <= ts.len() {
                or_rest(ts, CondView::Or(Box::new(left), Box::new(right)), q)
            } else {
                Err(Seq::empty())
            },
            Err(e) => Err(e),
        }
    } else {
        Ok((left, p))
    }
}

/// Conjunctions joined by `||`.
pub open spec fn or_at(ts: Seq<TokenView>, p: int) -> Parsed
    decreases ts.len() - p, 6int,
{
    match and_at(ts, p) {
        Ok((c, q)) => if p < q <= ts.len() {
            or_rest(ts, c, q)
        } else {
            Err(Seq::empty())
        },
        Err(e) => Err(e),
    }
}

/// The condition that a line writes, or a message.
pub open spec fn expression_of(s: Seq<char>, floats: FloatsView) -> Result<CondView, Seq<char>> {
    match tokens_of(s, floats) {
        Err(e) => Err(e),
        Ok(ts) => if ts.len() == 0 {
            Err("empty expression"@)
        } else {
            match or_at(ts, 0) {
                Err(e) => Err(e),
                Ok((c, p)) => if p == ts.len() {
                    Ok(c)
                } else {
                    Err("trailing tokens after expression in '"@ + s + "'"@)
                },
            }
        },
    }
}

/// The position after `p` in a result.
pub open spec fn advances(r: Parsed, p: int, n: nat) -> bool {
    r matches Ok((_, q)) ==> p < q <= n
}

/// Every part of a condition takes at least one token, and none beyond the end.
pub proof fn parts_advance(ts: Seq<TokenView>, p: int, left: CondView)
    requires
        0 <= p <= ts.len(),
    ensures
        advances(atom_at(ts, p), p, ts.len()),
        advances(not_at(ts, p), p, ts.len()),
        advances(and_at(ts, p), p, ts.len()),
        advances(or_at(ts, p), p, ts.len()),
        and_rest(ts, left, p) matches Ok((_, q)) ==> p <= q <= ts.len(),
        or_rest(ts, left, p) matches Ok((_, q)) ==> p <= q <= ts.len(),
    decreases ts.len() - p,
{
    if p < ts.len() {
        parts_advance(ts, p + 1, left);
        if let Ok((right, q)) = not_at(ts, p + 1) {
            parts_advance(ts, q, CondView::And(Box::new(left), Box::new(right)));
        }
        if let Ok((right, q)) = and_at(ts, p + 1) {
            parts_advance(ts, q, CondView::Or(Box::new(left), Box::new(right)));
        }
    }
    assert(advances(atom_at(ts, p), p, ts.len()));
    assert(advances(not_at(ts, p), p, ts.len()));
    if let Ok((c, q)) = not_at(ts, p) {
        parts_advance(ts, q, c);
    }
    assert(advances(and_at(ts, p), p, ts.len()));
    if let Ok((c, q)) = and_at(ts, p) {
        parts_advance(ts, q, c);
    }
}

// ---------------------------------------------------------------------
// The parser
// ---------------------------------------------------------------------

/// The tokens of a line, and how many of them are read.
struct Parser {
    tokens: Vec<Token>,
    pos: usize,
}

impl Parser {
    spec fn wf(&self) -> bool {
        self.pos <= self.tokens@.len()
    }

    spec fn ts(&self) -> Seq<TokenView> {
        self.tokens.deep_view()
    }

    /// What a parsing step returned and where it left off is what `parsed` says.
    spec fn follows(before: Parser, after: Parser, r: Result<Condition, String>, parsed: Parsed) -> bool {
        &&& after.tokens == before.tokens
        &&& after.wf()
        &&& match r {
            Ok(c) => parsed == Ok::<(CondView, int), Seq<char>>((c.deep_view(), after.pos as int)),
            Err(e) => parsed == Err::<(CondView, int), Seq<char>>(e@),
        }
    }

    fn peek(&self) -> (r: Option<&Token>)
        requires
            self.wf(),
        ensures
            r.deep_view() == token_at(self.ts(), self.pos as int),
    {
        if self.pos < self.tokens.len() {
            Some(&self.tokens[self.pos])
        } else {
            None
        }
    }

    fn next(&mut self) -> (r: Option<Token>)
        requires
            old(self).wf(),
        ensures
            final(self).wf(),
            final(self).tokens == old(self).tokens,
            r.deep_view() == token_at(old(self).ts(), old(self).pos as int),
            final(self).pos == if r is Some {
                old(self).pos + 1
            } else {
                old(self).pos as int
            },
    {
        if self.pos < self.tokens.len() {
            let t = self.tokens[self.pos].clone();
            self.pos += 1;
            Some(t)
        } else {
            None
        }
    }

    fn or_expr(&mut self) -> (r: Result<Condition, String>)
        requires
            old(self).wf(),
        ensures
            Parser::follows(*old(self), *final(self), r, or_at(old(self).ts(), old(self).pos as int)),
        decreases old(self).tokens@.len() - old(self).pos, 6int,
    {
        let ghost ts = self.ts();
        let ghost start = self.pos as int;
        proof {
            parts_advance(ts, start, arbitrary());
        }
        let mut left = self.and_expr()?;
        loop
            invariant_except_break
                or_at(ts, start) == or_rest(ts, left.deep_view(), self.pos as int),
            invariant
                self.wf(),
                self.ts() == ts,
                self.tokens == old(self).tokens,
                start == old(self).pos,
                start < self.pos,
            ensures
                or_at(ts, start) == Ok::<(CondView, int), Seq<char>>(
                    (left.deep_view(), self.pos as int),
                ),
            decreases ts.len() - self.pos,
        {
            let more: bool = match self.peek() {
                Some(Token::Or) => true,
                _ => false,
            };
            if !more {
                break;
            }
            let ghost at = self.pos as int;
            self.next();
            proof {
                parts_advance(ts, at + 1, arbitrary());
            }
            let right = self.and_expr()?;
            left = Condition::Or(Box::new(left), Box::new(right));
        }
        Ok(left)
    }

    fn and_expr(&mut self) -> (r: Result<Condition, String>)
        requires
            old(self).wf(),
        ensures
            Parser::follows(
                *old(self),
                *final(self),
                r,
                and_at(old(self).ts(), old(self).pos as int),
            ),
        decreases old(self).tokens@.len() - old(self).pos, 4int,
    {
        let ghost ts = self.ts();
        let ghost start = self.pos as int;
        proof {
            parts_advance(ts, start, arbitrary());
        }
        let mut left = self.not_expr()?;
        loop
            invariant_except_break
                and_at(ts, start) == and_rest(ts, left.deep_view(), self.pos as int),
            invariant
                self.wf(),
                self.ts() == ts,
                self.tokens == old(self).tokens,
                start == old(self).pos,
                start < self.pos,
            ensures
                and_at(ts, start) == Ok::<(CondView, int), Seq<char>>(
                    (left.deep_view(), self.pos as int),
                ),
            decreases ts.len() - self.pos,
        {
            let more: bool = match self.peek() {
                Some(Token::And) => true,
                _ => false,
            };
            if !more {
                break;
            }
            let ghost at = self.pos as int;
            self.next();
            proof {
                parts_advance(ts, at + 1, arbitrary());
            }
            let right = self.not_expr()?;
            left = Condition::And(Box::new(left), Box::new(right));
        }
        Ok(left)
    }

    fn not_expr(&mut self) -> (r: Result<Condition, String>)
        requires
            old(self).wf(),
        ensures
            Parser::follows(
                *old(self),
                *final(self),
                r,
                not_at(old(self).ts(), old(self).pos as int),
            ),
        decreases old(self).tokens@.len() - old(self).pos, 2int,
    {
        let negated: bool = match self.peek() {
            Some(Token::Not) => true,
            _ => false,
        };
        if negated {
            self.next();
            let inner = self.not_expr()?;
            Ok(Condition::Not(Box::new(inner)))
        } else {
            self.atom()
        }
    }

    fn atom(&mut self) -> (r: Result<Condition, String>)
        requires
            old(self).wf(),
        ensures
            Parser::follows(
                *old(self),
                *final(self),
                r,
                atom_at(old(self).ts(), old(self).pos as int),
            ),
        decreases old(self).tokens@.len() - old(self).pos, 1int,
    {
        let open: bool = match self.peek() {
            Some(Token::LParen) => true,
            _ => false,
        };
        if open {
            self.next();
            let inner = self.or_expr()?;
            match self.next() {
                Some(Token::RParen) => Ok(inner),
                _ => Err("expected ')'".to_string()),
            }
        } else {
            self.comparison()
        }
    }

    fn comparison(&mut self) -> (r: Result<Condition, String>)
        requires
            old(self).wf(),
        ensures
            Parser::follows(
                *old(self),
                *final(self),
                r,
                comparison_at(old(self).ts(), old(self).pos as int),
            ),
    {
        let path_str = match self.next() {
            Some(Token::Path(p)) => p,
            other => {
                return Err(say("expected field path, got ", &other));
            },
        };
        let path = match FieldPath::parse(path_str.as_str()) {
            Some(path) => path,
            None => {
                return Err(join("invalid field path '", path_str.as_str(), "'"));
            },
        };
        let op = match self.next() {
            Some(Token::Op(op)) => op,
            other => {
                return Err(say("expected comparison operator, got ", &other));
            },
        };
        let value = match self.next() {
            Some(Token::Int(v)) => RuleValue::Int(v),
            Some(Token::Float(v, _)) => RuleValue::Float(v),
            Some(Token::Str(v)) => RuleValue::Str(v),
            Some(Token::Bool(v)) => RuleValue::Bool(v),
            other => {
                return Err(say("expected value literal, got ", &other));
            },
        };
        Ok(Condition::Compare { path, op, value })
    }
}

/// Parses one condition line.
pub fn parse_expression(s: &str, floats: &FloatTable) -> (r: Result<Condition, String>)
    ensures
        match r {
            Ok(c) => expression_of(s@, floats@) == Ok::<CondView, Seq<char>>(c.deep_view()),
            Err(e) => expression_of(s@, floats@) == Err::<CondView, Seq<char>>(e@),
        },
{
    let chars = to_chars(s);
    let tokens = tokenize(chars.as_slice(), floats)?;
    if tokens.len() == 0 {
        return Err("empty expression".to_string());
    }
    let mut p = Parser { tokens, pos: 0 };
    let cond = p.or_expr()?;
    if p.pos != p.tokens.len() {
        return Err(join("trailing tokens after expression in '", s, "'"));
    }
    Ok(cond)
}

} // verus!
