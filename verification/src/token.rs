//! The token vocabulary of the lexer, and the structural invariants that
//! every emitted token satisfies.
use crate::span::{lex_le, span_ok, Meta, Span};
use vstd::prelude::*;

verus! {

/// The root against which a path literal is resolved.
#[derive(Clone, Copy, Debug, PartialEq, Eq, Structural)]
pub enum Anchor {
    Absolute,
    Relative,
    Home,
    Store,
    Uri,
}

/// A fractional literal, kept exact as its integral value and the decimal
/// digits of its fractional part, in source order.
#[derive(Clone, Debug, PartialEq, Eq)]
pub struct FloatLit {
    pub whole: i64,
    pub frac: Vec<u8>,
}

/// A literal leaf value.
#[derive(Clone, Debug, PartialEq)]
pub enum Value {
    Integer(i64),
    Float(FloatLit),
    Str(String),
    Path(Anchor, String),
}

/// One part of an interpolated string: a literal run, or the token group of
/// one `${ ... }` interpolation.
#[derive(Debug, PartialEq)]
pub enum Interpol {
    Literal(String),
    Tokens(Vec<(Meta, Token)>),
}

#[derive(Debug, PartialEq)]
pub enum Token {
    CurlyBOpen,
    CurlyBClose,
    Equal,
    Semicolon,
    Dot,
    Ident(String),
    Value(Value),
    Interpol(Vec<Interpol>),
    Let,
    In,
    With,
    Import,
    Rec,
    SquareBOpen,
    SquareBClose,
    Concat,
    ParenOpen,
    ParenClose,
    Add,
    Sub,
    Mul,
    Div,
}

/// A lexical fault, reported as an item of the token stream.
#[derive(Clone, Copy, Debug, PartialEq, Eq, Structural)]
pub enum TokenizeError {
    IntegerOverflow,
    TrailingDecimal,
    UnexpectedEOF,
    UndefinedToken,
    TrailingSlash,
    UnclosedComment,
}

/// One item of the token stream: a token with its metadata, or an error with
/// the span of the attempted token.
pub type Item = Result<(Meta, Token), (Span, TokenizeError)>;

/// Literal and token-group parts strictly alternate, starting with a literal.
pub open spec fn parts_alternate(parts: Seq<Interpol>) -> bool {
    forall|i: int| 0 <= i < parts.len() ==> ((#[trigger] parts[i]) is Literal <==> i % 2 == 0)
}

/// Every span is finished, and consecutive tokens are in source order:
/// each token starts no earlier than the previous one ended.
pub open spec fn items_ordered(items: Seq<(Meta, Token)>) -> bool {
    &&& forall|i: int| 0 <= i < items.len() ==> span_ok((#[trigger] items[i]).0.span)
    &&& forall|i: int|
        1 <= i < items.len() ==> lex_le(
            (#[trigger] items[i - 1]).0.span.end.unwrap(),
            items[i].0.span.start,
        )
}

/// Structural well-formedness of a token: inside an interpolated string the
/// parts alternate, and every nested token group is itself ordered and
/// well-formed.
pub open spec fn token_wf(t: Token) -> bool
    decreases t,
{
    match t {
        Token::Interpol(parts) => parts_alternate(parts@) && forall|i: int|
            0 <= i < parts@.len() ==> part_wf(#[trigger] parts@[i]),
        _ => true,
    }
}

pub open spec fn part_wf(p: Interpol) -> bool
    decreases p,
{
    match p {
        Interpol::Literal(_) => true,
        Interpol::Tokens(v) => items_ordered(v@) && forall|j: int|
            0 <= j < v@.len() ==> token_wf((#[trigger] v@[j]).1) && span_ok(v@[j].0.span),
    }
}

/// The decoded body of a string token does not begin with a newline
/// (an indented string drops a newline read into an empty buffer).
pub open spec fn no_leading_nl(t: Token) -> bool {
    match t {
        Token::Value(v) => match v {
            Value::Str(s) => s@.len() > 0 ==> s@[0] != '\n',
            _ => true,
        },
        Token::Interpol(parts) => parts@.len() > 0 ==> match parts@[0] {
            Interpol::Literal(l) => l@.len() > 0 ==> l@[0] != '\n',
            _ => true,
        },
        _ => true,
    }
}

/// Well-formedness of a whole token stream: at most one error, and only as
/// the last item; every token well-formed; spans non-overlapping and
/// monotonically non-decreasing in source order.
pub open spec fn stream_wf(items: Seq<Item>) -> bool {
    &&& forall|i: int| 0 <= i < items.len() ==> ((#[trigger] items[i]) is Err ==> i == items.len() - 1)
    &&& forall|i: int|
        0 <= i < items.len() ==> ((#[trigger] items[i]) matches Ok(p) ==> span_ok(p.0.span)
            && token_wf(p.1))
    &&& forall|i: int|
        1 <= i < items.len() ==> ((#[trigger] items[i - 1]) matches Ok(p) ==> (items[i] matches Ok(
            q,
        ) ==> lex_le(p.0.span.end.unwrap(), q.0.span.start)))
}

} // verus!
