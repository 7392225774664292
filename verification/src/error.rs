//! The two ways reading a source unit can fail.

use crate::ast::BracketKind;
use crate::span::SpanRangeError;
use vstd::prelude::*;

verus! {

/// The set of syntactic alternatives that were tried at a failing offset.
#[derive(Debug, Clone, Copy, PartialEq, Eq, Hash, Structural)]
pub struct Expected {
    /// A prefix marker.
    pub prefix: bool,
    /// An opening bracket.
    pub list: bool,
    /// A string literal.
    pub string: bool,
    /// An identifier.
    pub ident: bool,
    /// The bracket that closes the innermost open list.
    pub close: Option<BracketKind>,
    /// The end of the input.
    pub end: bool,
}

impl Expected {
    /// The alternatives that can start the body of an s-expression, together
    /// with a prefix marker when `prefix` is set.
    pub open spec fn atom(prefix: bool) -> Expected {
        Expected { prefix, list: true, string: true, ident: true, close: None, end: false }
    }

    /// A string literal or an identifier, together with a prefix marker when
    /// `prefix` is set, where no further list may be opened.
    pub open spec fn leaf(prefix: bool) -> Expected {
        Expected { prefix, list: false, string: true, ident: true, close: None, end: false }
    }

    /// Another element of a list, or the bracket that closes it.
    pub open spec fn element_or_close(bracket: BracketKind) -> Expected {
        Expected {
            prefix: true,
            list: true,
            string: true,
            ident: true,
            close: Some(bracket),
            end: false,
        }
    }

    /// Another top-level s-expression, or the end of the input.
    pub open spec fn element_or_end() -> Expected {
        Expected { prefix: true, list: true, string: true, ident: true, close: None, end: true }
    }

    /// A prefix marker and nothing else.
    pub open spec fn only_prefix() -> Expected {
        Expected {
            prefix: true,
            list: false,
            string: false,
            ident: false,
            close: None,
            end: false,
        }
    }

    /// An identifier and nothing else.
    pub open spec fn only_ident() -> Expected {
        Expected {
            prefix: false,
            list: false,
            string: false,
            ident: true,
            close: None,
            end: false,
        }
    }

    /// A string literal and nothing else.
    pub open spec fn only_string() -> Expected {
        Expected {
            prefix: false,
            list: false,
            string: true,
            ident: false,
            close: None,
            end: false,
        }
    }
}

/// No alternative of the grammar matches at `offset`.
#[derive(Debug, Clone, Copy, PartialEq, Eq, Hash, Structural)]
pub struct SyntaxError {
    /// Byte offset at which reading stopped.
    pub offset: usize,
    /// The alternatives that were tried there.
    pub expected: Expected,
}

/// Why a source unit could not be read.
#[derive(Debug, Clone, Copy, PartialEq, Eq, Hash, Structural)]
pub enum ParseError {
    /// The text does not follow the grammar.
    Syntax(SyntaxError),
    /// An atom covers more bytes than a span can hold.
    SpanRange(SpanRangeError),
}

/// The syntax error at `offset` with the alternatives `expected`.
pub open spec fn syntax_error(offset: int, expected: Expected) -> ParseError {
    ParseError::Syntax(SyntaxError { offset: offset as usize, expected })
}

} // verus!
