//! The grammar, as mathematical functions on the bytes of a source unit.
//!
//! ```text
//! whitespace   := ' ' | '\t' | '\n' | '\r'
//! prefix       := ",@" | "'" | "`" | ","
//! ident        := one or more bytes that are neither whitespace nor brackets
//! string       := '"' , (any byte but '"')* , '"'
//! list         := open , whitespace* , (s-expression , whitespace*)* , close , whitespace*
//! s-expression := prefix? , whitespace* , (list | string | ident)
//! program      := whitespace* , (s-expression , whitespace*)*
//! ```
//!
//! Alternatives are ordered: the two-byte prefix marker is tried before the
//! one-byte ones, and a string literal before an identifier, so an opening
//! quote that is never closed starts an identifier.
//!
//! Reading stops at the first failure: the first offset at which no
//! alternative matches, or the first atom whose span would be too long.
//! The recursive rules take a nesting budget, the number of lists that may
//! still be opened inside one another; `None` sets no limit.

use crate::ast::{AtomKindView, AtomView, BracketKind, PrefixKind};
use crate::error::{syntax_error, Expected, ParseError, SyntaxError};
use crate::span::{span_of, SpanView};
use vstd::prelude::*;

verus! {

/// Space, tab, line feed and carriage return separate tokens.
pub open spec fn is_whitespace(b: u8) -> bool {
    b == 0x20 || b == 0x09 || b == 0x0A || b == 0x0D
}

/// The bracket kind that `b` opens, if it is `(`, `{` or `[`.
pub open spec fn opening(b: u8) -> Option<BracketKind> {
    if b == 0x28 {
        Some(BracketKind::Round)
    } else if b == 0x7B {
        Some(BracketKind::Curly)
    } else if b == 0x5B {
        Some(BracketKind::Square)
    } else {
        None
    }
}

/// The bracket kind that `b` closes, if it is `)`, `}` or `]`.
pub open spec fn closing(b: u8) -> Option<BracketKind> {
    if b == 0x29 {
        Some(BracketKind::Round)
    } else if b == 0x7D {
        Some(BracketKind::Curly)
    } else if b == 0x5D {
        Some(BracketKind::Square)
    } else {
        None
    }
}

/// `b` is the double quote that delimits string literals.
pub open spec fn is_quote(b: u8) -> bool {
    b == 0x22
}

/// Classes of bytes that the lexical rules consume in runs.
#[derive(Debug, Clone, Copy, PartialEq, Eq, Structural)]
pub enum ByteClass {
    /// Bytes that separate tokens.
    Whitespace,
    /// Bytes that may appear in an identifier.
    Ident,
    /// Bytes that may appear between the quotes of a string literal.
    StringBody,
}

impl ByteClass {
    /// `b` belongs to this class.
    pub open spec fn contains(self, b: u8) -> bool {
        match self {
            ByteClass::Whitespace => is_whitespace(b),
            ByteClass::Ident => !is_whitespace(b) && opening(b) is None && closing(b) is None,
            ByteClass::StringBody => !is_quote(b),
        }
    }
}

/// End of the longest run of `class` bytes that starts at `pos`.
pub open spec fn run_end(s: Seq<u8>, pos: int, class: ByteClass) -> int
    decreases s.len() - pos,
{
    if 0 <= pos < s.len() && class.contains(s[pos]) {
        run_end(s, pos + 1, class)
    } else {
        pos
    }
}

/// The run of `class` bytes from `pos` stays inside the input, holds only
/// bytes of the class, and cannot be extended.
pub proof fn lemma_run_end(s: Seq<u8>, pos: int, class: ByteClass)
    requires
        0 <= pos <= s.len(),
    ensures
        pos <= run_end(s, pos, class) <= s.len(),
        forall|i: int| pos <= i < run_end(s, pos, class) ==> class.contains(#[trigger] s[i]),
        run_end(s, pos, class) < s.len() ==> !class.contains(s[run_end(s, pos, class)]),
    decreases s.len() - pos,
{
    if pos < s.len() && class.contains(s[pos]) {
        lemma_run_end(s, pos + 1, class);
    }
}

/// The prefix marker at `pos` and its length in bytes.
pub open spec fn prefix_at(s: Seq<u8>, pos: int) -> Option<(PrefixKind, int)> {
    if !(0 <= pos < s.len()) {
        None
    } else if s[pos] == 0x2C {
        if pos + 1 < s.len() && s[pos + 1] == 0x40 {
            Some((PrefixKind::UnquoteSplicing, 2))
        } else {
            Some((PrefixKind::Unquote, 1))
        }
    } else if s[pos] == 0x27 {
        Some((PrefixKind::Quote, 1))
    } else if s[pos] == 0x60 {
        Some((PrefixKind::QuasiQuote, 1))
    } else {
        None
    }
}

/// Offset just past the string literal that opens at `pos`, if there is an
/// opening quote at `pos` and a closing quote after it.
pub open spec fn string_at(s: Seq<u8>, pos: int) -> Option<int> {
    if 0 <= pos < s.len() && is_quote(s[pos]) {
        let close = run_end(s, pos + 1, ByteClass::StringBody);
        if close < s.len() {
            Some(close + 1)
        } else {
            None
        }
    } else {
        None
    }
}

/// The atom over `[start, end)`, or the error for a range too long for a span.
pub open spec fn atom_over(
    prefix: Option<PrefixKind>,
    kind: AtomKindView,
    start: int,
    end: int,
) -> Result<AtomView, ParseError> {
    match span_of(start, end) {
        Ok(span) => Ok(AtomView { prefix, kind, span }),
        Err(e) => Err(ParseError::SpanRange(e)),
    }
}

/// `atom_over` paired with the offset at which reading goes on.
pub open spec fn step(
    prefix: Option<PrefixKind>,
    kind: AtomKindView,
    start: int,
    end: int,
) -> Result<(AtomView, int), ParseError> {
    match atom_over(prefix, kind, start, end) {
        Ok(atom) => Ok((atom, end)),
        Err(e) => Err(e),
    }
}

/// `first` put in front of the elements of a later result.
pub open spec fn prepend(
    first: Seq<AtomView>,
    rest: Result<(Seq<AtomView>, int), ParseError>,
) -> Result<(Seq<AtomView>, int), ParseError> {
    match rest {
        Ok((atoms, stop)) => Ok((first + atoms, stop)),
        Err(e) => Err(e),
    }
}

/// The nesting budget inside a list: one less than around it. `None` is no
/// limit at all.
pub open spec fn inside(depth: Option<nat>) -> Option<nat> {
    match depth {
        Some(d) => Some((d - 1) as nat),
        None => None,
    }
}

/// The s-expression that starts at `pos`, with the offset just past it.
///
/// The span of the atom starts at `pos`. It ends with the last byte of an
/// identifier or string literal; for a list it also takes in the whitespace
/// that follows the closing bracket.
///
/// `depth` is how many lists may still be opened inside one another. With a
/// budget of zero an opening bracket matches no alternative.
pub open spec fn sexp(s: Seq<u8>, pos: int, depth: Option<nat>) -> Result<
    (AtomView, int),
    ParseError,
>
    decreases s.len() - pos, 0int,
{
    let prefix = match prefix_at(s, pos) {
        Some((kind, _)) => Some(kind),
        None => None,
    };
    let after_prefix = match prefix_at(s, pos) {
        Some((_, len)) => pos + len,
        None => pos,
    };
    let body = run_end(s, after_prefix, ByteClass::Whitespace);
    if !(0 <= pos <= body < s.len()) {
        Err(syntax_error(body, Expected::atom(prefix is None)))
    } else if opening(s[body]) is Some && depth == Some(0nat) {
        Err(syntax_error(body, Expected::leaf(prefix is None)))
    } else if opening(s[body]) is Some {
        let bracket = opening(s[body])->0;
        let inner = run_end(s, body + 1, ByteClass::Whitespace);
        proof {
            lemma_run_end(s, body + 1, ByteClass::Whitespace);
        }
        match items(s, inner, inside(depth)) {
            Err(e) => Err(e),
            Ok((children, stop)) => {
                if 0 <= stop < s.len() && closing(s[stop]) == Some(bracket) {
                    step(
                        prefix,
                        AtomKindView::List(children, bracket),
                        pos,
                        run_end(s, stop + 1, ByteClass::Whitespace),
                    )
                } else {
                    Err(syntax_error(stop, Expected::element_or_close(bracket)))
                }
            },
        }
    } else if closing(s[body]) is Some {
        Err(syntax_error(body, Expected::atom(prefix is None)))
    } else if string_at(s, body) is Some {
        let end = string_at(s, body)->0;
        step(prefix, AtomKindView::String(s.subrange(body + 1, end - 1)), pos, end)
    } else {
        let end = run_end(s, body, ByteClass::Ident);
        step(prefix, AtomKindView::Ident(s.subrange(body, end)), pos, end)
    }
}

/// The s-expressions from `pos` up to the first offset at which none starts:
/// the end of the input or a closing bracket. `pos` is past any whitespace.
pub open spec fn items(s: Seq<u8>, pos: int, depth: Option<nat>) -> Result<
    (Seq<AtomView>, int),
    ParseError,
>
    decreases s.len() - pos, 1int,
{
    if !(0 <= pos < s.len()) || closing(s[pos]) is Some {
        Ok((Seq::empty(), pos))
    } else {
        match sexp(s, pos, depth) {
            Err(e) => Err(e),
            Ok((first, end)) => {
                if pos < end <= s.len() {
                    proof {
                        lemma_run_end(s, end, ByteClass::Whitespace);
                    }
                    prepend(seq![first], items(s, run_end(s, end, ByteClass::Whitespace), depth))
                } else {
                    // Never taken: an s-expression is at least one byte long
                    // and ends inside the input (`lemma_sexp_extent`).
                    Ok((seq![first], end))
                }
            },
        }
    }
}

/// An s-expression is at least one byte long, ends inside the input, and
/// its span runs from where it starts to where it ends.
pub proof fn lemma_sexp_extent(s: Seq<u8>, pos: int, depth: Option<nat>)
    ensures
        sexp(s, pos, depth) matches Ok((atom, end)) ==> 0 <= pos < end <= s.len() && atom.span == (
        SpanView { start: pos, end }) && atom.span.fits(),
    decreases s.len() - pos, 0int,
{
    if let Ok((atom, end)) = sexp(s, pos, depth) {
        let after_prefix = match prefix_at(s, pos) {
            Some((_, len)) => pos + len,
            None => pos,
        };
        lemma_run_end(s, after_prefix, ByteClass::Whitespace);
        let body = run_end(s, after_prefix, ByteClass::Whitespace);
        if opening(s[body]) is Some {
            lemma_run_end(s, body + 1, ByteClass::Whitespace);
            let inner = run_end(s, body + 1, ByteClass::Whitespace);
            lemma_items_extent(s, inner, inside(depth));
            let stop = items(s, inner, inside(depth))->Ok_0.1;
            lemma_run_end(s, stop + 1, ByteClass::Whitespace);
        } else if string_at(s, body) is Some {
            lemma_run_end(s, body + 1, ByteClass::StringBody);
        } else {
            lemma_run_end(s, body, ByteClass::Ident);
        }
    }
}

/// A run of s-expressions stops inside the input, at its end or at a closing
/// bracket.
pub proof fn lemma_items_extent(s: Seq<u8>, pos: int, depth: Option<nat>)
    requires
        0 <= pos <= s.len(),
    ensures
        items(s, pos, depth) matches Ok((atoms, stop)) ==> pos <= stop <= s.len() && (stop < s.len()
            ==> closing(s[stop]) is Some),
    decreases s.len() - pos, 1int,
{
    if pos < s.len() && closing(s[pos]) is None {
        lemma_sexp_extent(s, pos, depth);
        if let Ok((first, end)) = sexp(s, pos, depth) {
            lemma_run_end(s, end, ByteClass::Whitespace);
            lemma_items_extent(s, run_end(s, end, ByteClass::Whitespace), depth);
        }
    }
}

/// Reading with a budget gives what reading without a limit gives,
/// wherever it succeeds.
pub proof fn lemma_sexp_unlimited(s: Seq<u8>, pos: int, depth: Option<nat>)
    ensures
        sexp(s, pos, depth) is Ok ==> sexp(s, pos, None) == sexp(s, pos, depth),
    decreases s.len() - pos, 0int,
{
    if sexp(s, pos, depth) is Ok {
        let after_prefix = match prefix_at(s, pos) {
            Some((_, len)) => pos + len,
            None => pos,
        };
        lemma_run_end(s, after_prefix, ByteClass::Whitespace);
        let body = run_end(s, after_prefix, ByteClass::Whitespace);
        if opening(s[body]) is Some {
            lemma_run_end(s, body + 1, ByteClass::Whitespace);
            lemma_items_unlimited(s, run_end(s, body + 1, ByteClass::Whitespace), inside(depth));
        }
    }
}

/// Reading a run with a budget gives what reading it without a limit gives,
/// wherever it succeeds.
pub proof fn lemma_items_unlimited(s: Seq<u8>, pos: int, depth: Option<nat>)
    requires
        0 <= pos <= s.len(),
    ensures
        items(s, pos, depth) is Ok ==> items(s, pos, None) == items(s, pos, depth),
    decreases s.len() - pos, 1int,
{
    if items(s, pos, depth) is Ok && pos < s.len() && closing(s[pos]) is None {
        lemma_sexp_unlimited(s, pos, depth);
        lemma_sexp_extent(s, pos, depth);
        let end = sexp(s, pos, depth)->Ok_0.1;
        lemma_run_end(s, end, ByteClass::Whitespace);
        lemma_items_unlimited(s, run_end(s, end, ByteClass::Whitespace), depth);
    }
}

/// The top-level atoms of a whole source unit in which at most `depth` lists
/// are nested in one another; `None` sets no limit.
pub open spec fn program_within(s: Seq<u8>, depth: Option<nat>) -> Result<
    Seq<AtomView>,
    ParseError,
> {
    match items(s, run_end(s, 0, ByteClass::Whitespace), depth) {
        Err(e) => Err(e),
        Ok((atoms, stop)) => {
            if stop >= s.len() {
                Ok(atoms)
            } else {
                Err(syntax_error(stop, Expected::element_or_end()))
            }
        },
    }
}

/// The top-level atoms of a whole source unit.
pub open spec fn program(s: Seq<u8>) -> Result<Seq<AtomView>, ParseError> {
    program_within(s, None)
}

/// The prefix marker at the start of `s`.
pub open spec fn prefix_rule(s: Seq<u8>) -> Result<PrefixKind, SyntaxError> {
    match prefix_at(s, 0) {
        Some((kind, _)) => Ok(kind),
        None => Err(SyntaxError { offset: 0, expected: Expected::only_prefix() }),
    }
}

/// The identifier at the start of `s`, as an atom without a prefix.
pub open spec fn ident_rule(s: Seq<u8>) -> Result<AtomView, ParseError> {
    let end = run_end(s, 0, ByteClass::Ident);
    if end > 0 {
        atom_over(None, AtomKindView::Ident(s.subrange(0, end)), 0, end)
    } else {
        Err(syntax_error(0, Expected::only_ident()))
    }
}

/// The string literal at the start of `s`, as an atom without a prefix.
///
/// Without an opening quote the error is at offset 0; with an opening quote
/// that is never closed it is at the end of the input.
pub open spec fn string_rule(s: Seq<u8>) -> Result<AtomView, ParseError> {
    match string_at(s, 0) {
        Some(end) => atom_over(None, AtomKindView::String(s.subrange(1, end - 1)), 0, end),
        None => {
            let offset = if s.len() > 0 && is_quote(s[0]) {
                s.len() as int
            } else {
                0
            };
            Err(syntax_error(offset, Expected::only_string()))
        },
    }
}

} // verus!
