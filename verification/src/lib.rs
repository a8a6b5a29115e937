//! A verified lexer for a small, lazy, functional configuration language.
//!
//! The lexer turns a source text into a stream of tokens annotated with
//! source spans and preceding comments.  Identifier-shaped runs are
//! classified by bounded lookahead into identifiers, paths, and URIs;
//! string literals come in a quoted and an indented flavour and may nest
//! arbitrary token groups through `${ ... }` interpolation.
pub mod chars;
pub mod classify;
pub mod span;
pub mod token;
pub mod tokenizer;
pub mod trivia;

pub use span::{Meta, Span};
pub use token::{Anchor, FloatLit, Interpol, Item, Token, TokenizeError, Value};
pub use tokenizer::{tokenize, Tokenizer};
