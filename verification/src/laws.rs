//! What holds of every successful reading: each atom is the s-expression at
//! its own offset, identifiers and string literals read back from their
//! spans, list spans run from bracket to bracket, and the two-byte prefix
//! marker is never split.
//!
//! Each law holds under every nesting limit `depth`; `None` is the reading
//! without one.

use crate::ast::{AtomKindView, AtomView, PrefixKind};
use crate::error::ParseError;
use crate::grammar::{
    closing, ident_rule, inside, is_whitespace, items, lemma_items_extent, lemma_run_end,
    lemma_sexp_extent, lemma_sexp_unlimited, opening, prefix_at, prefix_rule, program_within,
    run_end, sexp, string_at, string_rule, ByteClass,
};
use crate::span::{SpanView, MAX_SPAN_LEN};
use vstd::prelude::*;

verus! {

/// `target` is `atom` or one of the atoms nested in it.
pub open spec fn occurs_in(target: AtomView, atom: AtomView) -> bool
    decreases atom,
{
    target == atom || match atom.kind {
        AtomKindView::List(children, _) => exists|i: int|
            0 <= i < children.len() && occurs_in(target, #[trigger] children[i]),
        _ => false,
    }
}

/// `target` is one of `atoms` or nested in one of them.
pub open spec fn occurs_among(target: AtomView, atoms: Seq<AtomView>) -> bool {
    exists|i: int| 0 <= i < atoms.len() && occurs_in(target, #[trigger] atoms[i])
}

/// Number of bytes that a prefix marker takes.
pub open spec fn prefix_len(prefix: Option<PrefixKind>) -> int {
    match prefix {
        Some(PrefixKind::UnquoteSplicing) => 2,
        Some(_) => 1,
        None => 0,
    }
}

/// `pos` is an offset of `s` at which no whitespace stands: a token starts
/// there, or the input ends.
pub open spec fn past_whitespace(s: Seq<u8>, pos: int) -> bool {
    0 <= pos <= s.len() && (pos < s.len() ==> !is_whitespace(s[pos]))
}

/// Offset of the first byte of the body of `atom`: past its prefix marker and
/// the whitespace after it.
pub open spec fn body_start(s: Seq<u8>, atom: AtomView) -> int {
    run_end(s, atom.span.start + prefix_len(atom.prefix), ByteClass::Whitespace)
}

/// Offset of the bracket that closes the list `atom`.
pub open spec fn close_offset(s: Seq<u8>, atom: AtomView) -> int {
    match items(s, run_end(s, body_start(s, atom) + 1, ByteClass::Whitespace), None) {
        Ok((_, stop)) => stop,
        Err(_) => body_start(s, atom),
    }
}

/// A run is the only stretch of bytes of its class that starts at `pos` and
/// cannot be extended.
pub proof fn lemma_run_end_unique(s: Seq<u8>, pos: int, end: int, class: ByteClass)
    requires
        0 <= pos <= end <= s.len(),
        forall|i: int| pos <= i < end ==> class.contains(#[trigger] s[i]),
        end < s.len() ==> !class.contains(s[end]),
    ensures
        run_end(s, pos, class) == end,
    decreases end - pos,
{
    if pos < end {
        lemma_run_end_unique(s, pos + 1, end, class);
    }
}

/// The atom read at `pos` takes its prefix from the marker at `pos`, and its
/// body starts past the marker and the whitespace after it.
proof fn lemma_sexp_prefix(s: Seq<u8>, pos: int, depth: Option<nat>)
    ensures
        sexp(s, pos, depth) matches Ok((atom, _)) ==> {
            &&& prefix_at(s, pos) matches Some((kind, len)) ==> atom.prefix == Some(kind) && len
                == prefix_len(atom.prefix)
            &&& prefix_at(s, pos) is None ==> atom.prefix is None
            &&& pos <= body_start(s, atom) < s.len()
        },
{
    if let Ok((atom, _)) = sexp(s, pos, depth) {
        lemma_sexp_extent(s, pos, depth);
    }
}

/// Each atom in the s-expression read at `pos` is itself the s-expression
/// read at the start of its span.
proof fn lemma_sexp_occurrences(s: Seq<u8>, pos: int, target: AtomView, depth: Option<nat>)
    requires
        past_whitespace(s, pos),
        sexp(s, pos, depth) matches Ok((atom, _)) && occurs_in(target, atom),
    ensures
        past_whitespace(s, target.span.start),
        sexp(s, target.span.start, None) matches Ok((again, end)) && again == target && end
            == target.span.end,
    decreases s.len() - pos, 0int,
{
    lemma_sexp_extent(s, pos, depth);
    lemma_sexp_prefix(s, pos, depth);
    lemma_sexp_unlimited(s, pos, depth);
    let atom = sexp(s, pos, depth)->Ok_0.0;
    if target != atom {
        let body = body_start(s, atom);
        lemma_run_end(s, body + 1, ByteClass::Whitespace);
        lemma_items_occurrences(
            s,
            run_end(s, body + 1, ByteClass::Whitespace),
            target,
            inside(depth),
        );
    }
}

/// Each atom in the run of s-expressions read at `pos` is itself the
/// s-expression read at the start of its span.
proof fn lemma_items_occurrences(s: Seq<u8>, pos: int, target: AtomView, depth: Option<nat>)
    requires
        past_whitespace(s, pos),
        items(s, pos, depth) matches Ok((atoms, _)) && occurs_among(target, atoms),
    ensures
        past_whitespace(s, target.span.start),
        sexp(s, target.span.start, None) matches Ok((again, end)) && again == target && end
            == target.span.end,
    decreases s.len() - pos, 1int,
{
    let atoms = items(s, pos, depth)->Ok_0.0;
    let i = choose|i: int| 0 <= i < atoms.len() && occurs_in(target, #[trigger] atoms[i]);
    lemma_sexp_extent(s, pos, depth);
    let (first, end) = sexp(s, pos, depth)->Ok_0;
    let next = run_end(s, end, ByteClass::Whitespace);
    lemma_run_end(s, end, ByteClass::Whitespace);
    let rest = items(s, next, depth)->Ok_0.0;
    assert(atoms == seq![first] + rest);
    if i == 0 {
        lemma_sexp_occurrences(s, pos, target, depth);
    } else {
        assert(rest[i - 1] == atoms[i]);
        lemma_items_occurrences(s, next, target, depth);
    }
}

/// Every atom of a successful reading, at any depth, is the s-expression
/// that the grammar reads at the first offset of its span, and that
/// s-expression ends where the span ends. No whitespace stands at that
/// offset.
pub proof fn lemma_atom_is_sexp(s: Seq<u8>, target: AtomView, depth: Option<nat>)
    requires
        program_within(s, depth) matches Ok(atoms) && occurs_among(target, atoms),
    ensures
        past_whitespace(s, target.span.start),
        sexp(s, target.span.start, None) matches Ok((again, end)) && again == target && end
            == target.span.end,
{
    lemma_run_end(s, 0, ByteClass::Whitespace);
    lemma_items_occurrences(s, run_end(s, 0, ByteClass::Whitespace), target, depth);
}

/// Reading again: for every atom without a prefix in a successful reading,
/// the lexical rule of its kind, run on exactly the bytes of its span, gives
/// an atom of the same kind. (With a prefix the span starts at the marker,
/// which belongs to neither rule.)
pub proof fn lemma_relex(s: Seq<u8>, target: AtomView, depth: Option<nat>)
    requires
        program_within(s, depth) matches Ok(atoms) && occurs_among(target, atoms),
        target.prefix is None,
    ensures
        0 <= target.span.start <= target.span.end <= s.len(),
        target.kind is Ident ==> (ident_rule(s.subrange(target.span.start, target.span.end))
            matches Ok(again) && again.kind == target.kind),
        target.kind is String ==> (string_rule(s.subrange(target.span.start, target.span.end))
            matches Ok(again) && again.kind == target.kind),
{
    lemma_atom_is_sexp(s, target, depth);
    let start = target.span.start;
    let end = target.span.end;
    lemma_sexp_extent(s, start, None);
    lemma_sexp_prefix(s, start, None);
    lemma_run_end(s, start, ByteClass::Whitespace);
    assert(body_start(s, target) == start);
    let part = s.subrange(start, end);
    if target.kind is Ident {
        lemma_run_end(s, start, ByteClass::Ident);
        assert forall|i: int| 0 <= i < part.len() implies ByteClass::Ident.contains(
            #[trigger] part[i],
        ) by {
            assert(part[i] == s[start + i]);
        }
        lemma_run_end_unique(part, 0, part.len() as int, ByteClass::Ident);
        assert(part.subrange(0, part.len() as int) =~= part);
    } else if target.kind is String {
        lemma_run_end(s, start + 1, ByteClass::StringBody);
        let close = end - 1 - start;
        assert(part[0] == s[start]);
        assert forall|i: int| 1 <= i < close implies ByteClass::StringBody.contains(
            #[trigger] part[i],
        ) by {
            assert(part[i] == s[start + i]);
        }
        assert(part[close] == s[end - 1]);
        lemma_run_end_unique(part, 1, close, ByteClass::StringBody);
        assert(part.subrange(1, close) =~= s.subrange(start + 1, end - 1));
    }
}

/// The atoms of a run of s-expressions lie one after the other between the
/// offset at which the run starts and the offset at which it stops.
proof fn lemma_items_inside(s: Seq<u8>, pos: int, depth: Option<nat>)
    requires
        0 <= pos <= s.len(),
    ensures
        items(s, pos, depth) matches Ok((atoms, stop)) ==> forall|i: int|
            0 <= i < atoms.len() ==> pos <= (#[trigger] atoms[i]).span.start && atoms[i].span.end
                <= stop,
    decreases s.len() - pos,
{
    if let Ok((atoms, stop)) = items(s, pos, depth) {
        if pos < s.len() && closing(s[pos]) is None {
            lemma_sexp_extent(s, pos, depth);
            let (first, end) = sexp(s, pos, depth)->Ok_0;
            let next = run_end(s, end, ByteClass::Whitespace);
            lemma_run_end(s, end, ByteClass::Whitespace);
            lemma_items_inside(s, next, depth);
            lemma_items_extent(s, next, depth);
            let rest = items(s, next, depth)->Ok_0.0;
            assert(atoms == seq![first] + rest);
            assert forall|i: int| 0 <= i < atoms.len() implies pos <= (
            #[trigger] atoms[i]).span.start && atoms[i].span.end <= stop by {
                if i > 0 {
                    assert(atoms[i] == rest[i - 1]);
                }
            }
        }
    }
}

/// The span of every list atom of a successful reading is the merge of its
/// two delimiters with their padding: from the first byte of the atom
/// through the opening bracket, and from the closing bracket through the
/// whitespace after it. Without a prefix the span starts at the opening
/// bracket itself. The spans of the elements lie strictly between the two
/// brackets, so merging any of them into the list's span changes nothing.
pub proof fn lemma_list_span(s: Seq<u8>, target: AtomView, depth: Option<nat>)
    requires
        program_within(s, depth) matches Ok(atoms) && occurs_among(target, atoms),
        target.kind is List,
    ensures
        ({
            let open = body_start(s, target);
            let close = close_offset(s, target);
            let opening_side = SpanView { start: target.span.start, end: open + 1 };
            let closing_side = SpanView {
                start: close,
                end: run_end(s, close + 1, ByteClass::Whitespace),
            };
            &&& target.span.start <= open < close < s.len()
            &&& opening(s[open]) == Some(target.kind->List_1)
            &&& closing(s[close]) == Some(target.kind->List_1)
            &&& target.prefix is None ==> open == target.span.start
            &&& target.span == opening_side.merge(closing_side)
            &&& forall|i: int|
                0 <= i < target.kind->List_0.len() ==> {
                    let child = #[trigger] target.kind->List_0[i];
                    &&& open < child.span.start
                    &&& child.span.end <= close
                    &&& target.span.merge(child.span) == target.span
                }
        }),
{
    lemma_atom_is_sexp(s, target, depth);
    let start = target.span.start;
    lemma_sexp_extent(s, start, None);
    lemma_sexp_prefix(s, start, None);
    lemma_run_end(s, start, ByteClass::Whitespace);
    let open = body_start(s, target);
    let inner = run_end(s, open + 1, ByteClass::Whitespace);
    lemma_run_end(s, open + 1, ByteClass::Whitespace);
    lemma_items_extent(s, inner, None);
    lemma_items_inside(s, inner, None);
    let close = close_offset(s, target);
    lemma_run_end(s, close + 1, ByteClass::Whitespace);
}

/// Longest match for prefix markers: where a comma is directly followed by
/// an at sign, the marker read is the two-byte one. The s-expression read
/// there carries `UnquoteSplicing`, and its body starts after both bytes, so
/// the at sign is never the first byte of an identifier.
pub proof fn lemma_prefix_longest_match(s: Seq<u8>, pos: int, depth: Option<nat>)
    requires
        0 <= pos,
        pos + 1 < s.len(),
        s[pos] == 0x2C,
        s[pos + 1] == 0x40,
    ensures
        prefix_at(s, pos) == Some((PrefixKind::UnquoteSplicing, 2int)),
        prefix_rule(s.subrange(pos, s.len() as int)) == Ok::<PrefixKind, crate::error::SyntaxError>(
            PrefixKind::UnquoteSplicing,
        ),
        sexp(s, pos, depth) matches Ok((atom, end)) ==> {
            &&& atom.prefix == Some(PrefixKind::UnquoteSplicing)
            &&& pos + 2 <= body_start(s, atom)
            &&& atom.kind matches AtomKindView::Ident(text) ==> text == s.subrange(
                body_start(s, atom),
                end,
            )
        },
{
    let tail = s.subrange(pos, s.len() as int);
    assert(tail[0] == s[pos] && tail[1] == s[pos + 1]);
    lemma_sexp_prefix(s, pos, depth);
    lemma_run_end(s, pos + 2, ByteClass::Whitespace);
}

/// An input of at most `MAX_SPAN_LEN` bytes never fails for the length of a
/// span: every failure on it is a syntax error.
pub proof fn lemma_short_input_fits(s: Seq<u8>, depth: Option<nat>)
    requires
        s.len() <= MAX_SPAN_LEN,
    ensures
        !(program_within(s, depth) matches Err(ParseError::SpanRange(_))),
{
    lemma_run_end(s, 0, ByteClass::Whitespace);
    lemma_items_fit(s, run_end(s, 0, ByteClass::Whitespace), depth);
}

/// On a short input no s-expression fails for the length of its span.
proof fn lemma_sexp_fits(s: Seq<u8>, pos: int, depth: Option<nat>)
    requires
        s.len() <= MAX_SPAN_LEN,
    ensures
        !(sexp(s, pos, depth) matches Err(ParseError::SpanRange(_))),
    decreases s.len() - pos, 0int,
{
    let after_prefix = match prefix_at(s, pos) {
        Some((_, len)) => pos + len,
        None => pos,
    };
    let body = run_end(s, after_prefix, ByteClass::Whitespace);
    if 0 <= pos <= body < s.len() {
        lemma_run_end(s, after_prefix, ByteClass::Whitespace);
        if opening(s[body]) is Some {
            lemma_run_end(s, body + 1, ByteClass::Whitespace);
            let inner = run_end(s, body + 1, ByteClass::Whitespace);
            lemma_items_fit(s, inner, inside(depth));
            lemma_items_extent(s, inner, inside(depth));
            if let Ok((_, stop)) = items(s, inner, inside(depth)) {
                if stop < s.len() {
                    lemma_run_end(s, stop + 1, ByteClass::Whitespace);
                }
            }
        } else if string_at(s, body) is Some {
            lemma_run_end(s, body + 1, ByteClass::StringBody);
        } else {
            lemma_run_end(s, body, ByteClass::Ident);
        }
    }
}

/// On a short input no run of s-expressions fails for the length of a span.
proof fn lemma_items_fit(s: Seq<u8>, pos: int, depth: Option<nat>)
    requires
        s.len() <= MAX_SPAN_LEN,
        0 <= pos <= s.len(),
    ensures
        !(items(s, pos, depth) matches Err(ParseError::SpanRange(_))),
    decreases s.len() - pos, 1int,
{
    if pos < s.len() && closing(s[pos]) is None {
        lemma_sexp_fits(s, pos, depth);
        lemma_sexp_extent(s, pos, depth);
        if let Ok((_, end)) = sexp(s, pos, depth) {
            lemma_run_end(s, end, ByteClass::Whitespace);
            lemma_items_fit(s, run_end(s, end, ByteClass::Whitespace), depth);
        }
    }
}

} // verus!
