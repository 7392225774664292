//! The lexical rules: byte classes, runs, prefix markers, identifiers and
//! string literals.

use crate::ast::{Atom, AtomKind, AtomView, BracketKind, PrefixKind};
use crate::error::{Expected, ParseError, SyntaxError};
use crate::grammar;
use crate::grammar::ByteClass;
use crate::span::Span;
use crate::text::{
    bytes_of, lemma_boundary_after_ascii, lemma_boundary_at_ascii, lemma_source_is_utf8, substring,
};
use vstd::prelude::*;
use vstd::string::*;
use vstd::utf8::*;

verus! {

/// An executable result agrees with the result that the grammar gives.
pub open spec fn yields(r: Result<Atom, ParseError>, model: Result<AtomView, ParseError>) -> bool {
    match model {
        Ok(node) => r matches Ok(atom) && atom@ == node,
        Err(e) => r matches Err(err) && err == e,
    }
}

/// Whether `b` separates tokens.
pub fn is_whitespace(b: u8) -> (r: bool)
    ensures
        r == grammar::is_whitespace(b),
{
    b == 0x20 || b == 0x09 || b == 0x0A || b == 0x0D
}

/// The bracket kind that `b` opens.
pub fn opening(b: u8) -> (r: Option<BracketKind>)
    ensures
        r == grammar::opening(b),
{
    if b == 0x28 {
        Some(BracketKind::Round)
    } else if b == 0x7B {
        Some(BracketKind::Curly)
    } else if b == 0x5B {
        Some(BracketKind::Square)
    } else {
        None
    }
}

/// The bracket kind that `b` closes.
pub fn closing(b: u8) -> (r: Option<BracketKind>)
    ensures
        r == grammar::closing(b),
{
    if b == 0x29 {
        Some(BracketKind::Round)
    } else if b == 0x7D {
        Some(BracketKind::Curly)
    } else if b == 0x5D {
        Some(BracketKind::Square)
    } else {
        None
    }
}

impl ByteClass {
    /// Whether `b` belongs to this class.
    pub fn has(self, b: u8) -> (r: bool)
        ensures
            r == self.contains(b),
    {
        match self {
            ByteClass::Whitespace => is_whitespace(b),
            ByteClass::Ident => !is_whitespace(b) && opening(b).is_none() && closing(b).is_none(),
            ByteClass::StringBody => b != 0x22,
        }
    }
}

/// End of the longest run of `class` bytes that starts at `pos`.
pub fn scan(bytes: &[u8], pos: usize, class: ByteClass) -> (end: usize)
    ensures
        end == grammar::run_end(bytes@, pos as int, class),
        pos <= end,
        pos <= bytes@.len() ==> end <= bytes@.len(),
{
    let mut i: usize = pos;
    while i < bytes.len() && class.has(bytes[i])
        invariant
            pos <= i,
            pos <= bytes@.len() ==> i <= bytes@.len(),
            grammar::run_end(bytes@, i as int, class) == grammar::run_end(
                bytes@,
                pos as int,
                class,
            ),
        decreases bytes@.len() - i,
    {
        i += 1;
    }
    i
}

/// The prefix marker at `pos` and its length in bytes.
pub fn prefix_at(bytes: &[u8], pos: usize) -> (r: Option<(PrefixKind, usize)>)
    ensures
        match grammar::prefix_at(bytes@, pos as int) {
            Some((kind, len)) => r matches Some((k, n)) && k == kind && n == len && 1 <= len <= 2
                && pos + len <= bytes@.len(),
            None => r is None,
        },
{
    if pos >= bytes.len() {
        None
    } else if bytes[pos] == 0x2C {
        if pos + 1 < bytes.len() && bytes[pos + 1] == 0x40 {
            Some((PrefixKind::UnquoteSplicing, 2))
        } else {
            Some((PrefixKind::Unquote, 1))
        }
    } else if bytes[pos] == 0x27 {
        Some((PrefixKind::Quote, 1))
    } else if bytes[pos] == 0x60 {
        Some((PrefixKind::QuasiQuote, 1))
    } else {
        None
    }
}

/// Offset just past the string literal that opens at `pos`.
pub fn string_at(bytes: &[u8], pos: usize) -> (r: Option<usize>)
    ensures
        match grammar::string_at(bytes@, pos as int) {
            Some(end) => r matches Some(e) && e == end && pos + 2 <= end <= bytes@.len()
                && grammar::is_quote(bytes@[end - 1]),
            None => r is None,
        },
{
    if pos < bytes.len() && bytes[pos] == 0x22 {
        let close = scan(bytes, pos + 1, ByteClass::StringBody);
        if close < bytes.len() {
            proof {
                grammar::lemma_run_end(bytes@, pos + 1, ByteClass::StringBody);
            }
            Some(close + 1)
        } else {
            None
        }
    } else {
        None
    }
}

/// Reads a prefix marker at the start of `src`.
pub fn prefix(src: &str) -> (r: Result<PrefixKind, SyntaxError>)
    ensures
        r == grammar::prefix_rule(bytes_of(src)),
{
    match prefix_at(src.as_bytes(), 0) {
        Some((kind, _)) => Ok(kind),
        None => Err(
            SyntaxError {
                offset: 0,
                expected: Expected {
                    prefix: true,
                    list: false,
                    string: false,
                    ident: false,
                    close: None,
                    end: false,
                },
            },
        ),
    }
}

/// Reads an identifier at the start of `src`: the longest run of bytes that
/// are neither whitespace nor brackets. The run must not be empty.
pub fn ident(src: &str) -> (r: Result<Atom, ParseError>)
    ensures
        yields(r, grammar::ident_rule(bytes_of(src))),
{
    let bytes = src.as_bytes();
    let end = scan(bytes, 0, ByteClass::Ident);
    if end == 0 {
        return Err(
            ParseError::Syntax(
                SyntaxError {
                    offset: 0,
                    expected: Expected {
                        prefix: false,
                        list: false,
                        string: false,
                        ident: true,
                        close: None,
                        end: false,
                    },
                },
            ),
        );
    }
    match Span::new(0, end) {
        Err(e) => Err(ParseError::SpanRange(e)),
        Ok(span) => {
            proof {
                lemma_source_is_utf8(src);
                grammar::lemma_run_end(bytes@, 0, ByteClass::Ident);
                lemma_boundary_at_ascii(bytes@, end as int);
            }
            let text = substring(src, 0, end);
            Ok(Atom { prefix: None, kind: AtomKind::Ident(text), span })
        },
    }
}

/// Reads a string literal at the start of `src`: a double quote, any bytes
/// but a double quote, and a double quote. Nothing inside is an escape.
pub fn string(src: &str) -> (r: Result<Atom, ParseError>)
    ensures
        yields(r, grammar::string_rule(bytes_of(src))),
{
    let bytes = src.as_bytes();
    match string_at(bytes, 0) {
        None => {
            let offset = if bytes.len() > 0 && bytes[0] == 0x22 {
                bytes.len()
            } else {
                0
            };
            Err(
                ParseError::Syntax(
                    SyntaxError {
                        offset,
                        expected: Expected {
                            prefix: false,
                            list: false,
                            string: true,
                            ident: false,
                            close: None,
                            end: false,
                        },
                    },
                ),
            )
        },
        Some(end) => match Span::new(0, end) {
            Err(e) => Err(ParseError::SpanRange(e)),
            Ok(span) => {
                proof {
                    lemma_source_is_utf8(src);
                    lemma_boundary_after_ascii(bytes@, 0);
                    lemma_boundary_at_ascii(bytes@, end - 1);
                }
                let text = substring(src, 1, end - 1);
                Ok(Atom { prefix: None, kind: AtomKind::String(text), span })
            },
        },
    }
}

} // verus!
