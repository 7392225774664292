//! Reader for a Lisp-family surface syntax: source text in, span-annotated
//! s-expressions out.
//!
//! * [`span`]: half-open byte ranges of bounded length, and their merge.
//! * [`ast`]: atoms, their kinds, and the mathematical model of both.
//! * [`error`]: the two ways reading can fail.
//! * [`grammar`]: the grammar as functions on bytes; every contract of the
//!   reader speaks of these.
//! * [`lexer`] and [`parser`]: the executable reader.
//! * [`laws`], [`whitespace`] and [`nesting`]: what holds of every reading.
//!
//! Every function here is pure and total on its stated inputs and keeps no
//! state between calls, so a result can be cached per source unit by
//! whoever calls it.

pub mod ast;
pub mod error;
pub mod grammar;
pub mod laws;
pub mod lexer;
pub mod nesting;
pub mod parser;
pub mod span;
pub mod text;
pub mod whitespace;

pub use ast::{Atom, AtomKind, AtomKindView, AtomView, BracketKind, PrefixKind};
pub use error::{Expected, ParseError, SyntaxError};
pub use lexer::{ident, prefix, string};
pub use nesting::MAX_NESTING;
pub use parser::{program, program_within};
pub use span::{Span, SpanRangeError, SpanView, MAX_SPAN_LEN};
