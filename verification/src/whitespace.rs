//! Whitespace between tokens carries no meaning: putting one more whitespace
//! byte anywhere but inside a token leaves every kind as it was and only
//! moves or widens spans. This holds under every nesting limit `depth`.

use crate::ast::{AtomKindView, AtomView};
use crate::grammar::{
    closing, inside, is_quote, is_whitespace, items, lemma_items_extent, lemma_run_end,
    lemma_sexp_extent, opening, prefix_at, program_within, run_end, sexp, string_at, ByteClass,
};
use crate::laws::{
    body_start, lemma_run_end_unique, lemma_short_input_fits, past_whitespace, prefix_len,
};
use crate::span::MAX_SPAN_LEN;
use vstd::prelude::*;

verus! {

/// The offset `at` lies strictly inside one of the tokens of `atom`: between
/// the two bytes of its prefix marker, inside its identifier or string
/// literal, or inside a token of one of its elements.
pub open spec fn splits_token(s: Seq<u8>, atom: AtomView, at: int) -> bool
    decreases atom,
{
    ||| atom.span.start < at < atom.span.start + prefix_len(atom.prefix)
    ||| match atom.kind {
        AtomKindView::List(children, _) => exists|i: int|
            0 <= i < children.len() && splits_token(s, #[trigger] children[i], at),
        _ => body_start(s, atom) < at < atom.span.end,
    }
}

/// Two atoms are the same but for their spans and the spans nested in them.
pub open spec fn same_kinds(a: AtomView, b: AtomView) -> bool
    decreases a,
{
    a.prefix == b.prefix && match a.kind {
        AtomKindView::Ident(text) => b.kind == AtomKindView::Ident(text),
        AtomKindView::String(text) => b.kind == AtomKindView::String(text),
        AtomKindView::List(children, bracket) => b.kind matches AtomKindView::List(others, other)
            && bracket == other && children.len() == others.len() && forall|i: int|
            0 <= i < children.len() ==> same_kinds(#[trigger] children[i], others[i]),
    }
}

/// Where an offset at which a token starts ends up when a byte is put in at
/// `at`: a token that starts at `at` is pushed to the right.
pub open spec fn moved_start(pos: int, at: int) -> int {
    if pos < at {
        pos
    } else {
        pos + 1
    }
}

/// Where an offset at which a token ends ends up when a byte is put in at
/// `at`: a token that ends at `at` stays where it is.
pub open spec fn moved_end(pos: int, at: int) -> int {
    if pos <= at {
        pos
    } else {
        pos + 1
    }
}

/// The spans of `b` are those of `a` after a byte was put in at `at`: each
/// starts with the same byte as before, and ends where it ended or takes in
/// the new byte.
pub open spec fn widened(a: AtomView, b: AtomView, at: int) -> bool
    decreases a,
{
    &&& b.span.start == moved_start(a.span.start, at)
    &&& b.span.end == moved_end(a.span.end, at) || b.span.end == moved_start(a.span.end, at)
    &&& match a.kind {
        AtomKindView::List(children, _) => b.kind matches AtomKindView::List(others, _)
            && children.len() == others.len() && forall|i: int|
            0 <= i < children.len() ==> widened(#[trigger] children[i], others[i], at),
        _ => true,
    }
}

/// `same_kinds` and `widened`, element by element.
pub open spec fn all_widened(a: Seq<AtomView>, b: Seq<AtomView>, at: int) -> bool {
    a.len() == b.len() && forall|i: int|
        0 <= i < a.len() ==> same_kinds(#[trigger] a[i], b[i]) && widened(a[i], b[i], at)
}

/// No token of `atoms` is split at `at`.
pub open spec fn splits_none(s: Seq<u8>, atoms: Seq<AtomView>, at: int) -> bool {
    forall|i: int| 0 <= i < atoms.len() ==> !splits_token(s, #[trigger] atoms[i], at)
}

/// What putting a byte in does to the bytes around it.
proof fn lemma_inserted(s: Seq<u8>, at: int, b: u8)
    requires
        0 <= at <= s.len(),
    ensures
        s.insert(at, b).len() == s.len() + 1,
        s.insert(at, b)[at] == b,
        forall|i: int| 0 <= i < at ==> #[trigger] s.insert(at, b)[i] == s[i],
        forall|i: int| at < i <= s.len() ==> #[trigger] s.insert(at, b)[i] == s[i - 1],
        forall|i: int|
            0 <= i < s.len() ==> s.insert(at, b)[moved_start(i, at)] == #[trigger] s[i],
{
}

/// A run of a class that has the new byte takes it in: the run still ends
/// with the same byte as before.
proof fn lemma_run_absorbs(s: Seq<u8>, at: int, b: u8, pos: int, class: ByteClass)
    requires
        0 <= at <= s.len(),
        0 <= pos <= s.len(),
        class.contains(b),
    ensures
        run_end(s.insert(at, b), moved_end(pos, at), class) == moved_start(
            run_end(s, pos, class),
            at,
        ),
        run_end(s.insert(at, b), moved_start(pos, at), class) == moved_start(
            run_end(s, pos, class),
            at,
        ),
{
    let t = s.insert(at, b);
    let end = run_end(s, pos, class);
    lemma_inserted(s, at, b);
    lemma_run_end(s, pos, class);
    assert forall|i: int| moved_end(pos, at) <= i < moved_start(end, at) implies class.contains(
        #[trigger] t[i],
    ) by {
        if i < at {
            assert(t[i] == s[i]);
        } else if i > at {
            assert(t[i] == s[i - 1]);
        }
    }
    if end < s.len() {
        assert(t[moved_start(end, at)] == s[end]);
    }
    lemma_run_end_unique(t, moved_end(pos, at), moved_start(end, at), class);
    lemma_run_end_unique(t, moved_start(pos, at), moved_start(end, at), class);
}

/// A run of a class that lacks the new byte is kept, if the byte is put in
/// before the run or after it.
proof fn lemma_run_kept(s: Seq<u8>, at: int, b: u8, pos: int, class: ByteClass)
    requires
        0 <= at <= s.len(),
        0 <= pos < s.len(),
        !class.contains(b),
        class.contains(s[pos]),
        at <= pos || run_end(s, pos, class) <= at,
    ensures
        run_end(s.insert(at, b), moved_start(pos, at), class) == moved_end(
            run_end(s, pos, class),
            at,
        ),
        pos < run_end(s, pos, class),
{
    let t = s.insert(at, b);
    let end = run_end(s, pos, class);
    lemma_inserted(s, at, b);
    lemma_run_end(s, pos, class);
    assert forall|i: int| moved_start(pos, at) <= i < moved_end(end, at) implies class.contains(
        #[trigger] t[i],
    ) by {
        if i < at {
            assert(t[i] == s[i]);
        } else if i > at {
            assert(t[i] == s[i - 1]);
        }
    }
    if moved_end(end, at) < t.len() {
        if end < at {
            assert(t[end] == s[end]);
        } else if end > at {
            assert(t[end + 1] == s[end]);
        }
    }
    lemma_run_end_unique(t, moved_start(pos, at), moved_end(end, at), class);
}

/// A prefix marker is kept, unless the byte is put in between its two bytes.
proof fn lemma_prefix_kept(s: Seq<u8>, at: int, b: u8, pos: int)
    requires
        0 <= at <= s.len(),
        0 <= pos < s.len(),
        is_whitespace(b),
        prefix_at(s, pos) matches Some((_, len)) ==> !(pos < at < pos + len),
    ensures
        prefix_at(s.insert(at, b), moved_start(pos, at)) == prefix_at(s, pos),
{
    let t = s.insert(at, b);
    lemma_inserted(s, at, b);
    assert(t[moved_start(pos, at)] == s[pos]);
    if pos + 1 < s.len() {
        assert(t[moved_start(pos + 1, at)] == s[pos + 1]);
    }
}

/// The byte at `pos` is kept, and so is the whitespace after it.
proof fn lemma_byte_kept(s: Seq<u8>, at: int, b: u8, pos: int)
    requires
        0 <= at <= s.len(),
        0 <= pos < s.len(),
        is_whitespace(b),
    ensures
        s.insert(at, b)[moved_start(pos, at)] == s[pos],
        run_end(s.insert(at, b), moved_start(pos, at) + 1, ByteClass::Whitespace) == moved_start(
            run_end(s, pos + 1, ByteClass::Whitespace),
            at,
        ),
{
    lemma_inserted(s, at, b);
    lemma_run_absorbs(s, at, b, pos + 1, ByteClass::Whitespace);
    assert(moved_start(pos, at) + 1 == moved_end(pos + 1, at));
}

/// The start of an s-expression is kept: its prefix marker, the whitespace
/// after the marker, and the first byte of its body.
proof fn lemma_head_kept(s: Seq<u8>, at: int, b: u8, pos: int, len: int)
    requires
        0 <= at <= s.len(),
        0 <= pos < s.len(),
        is_whitespace(b),
        !is_whitespace(s[pos]),
        prefix_at(s, pos) matches Some((_, n)) ==> len == n,
        prefix_at(s, pos) is None ==> len == 0,
        !(pos < at < pos + len),
    ensures
        s.insert(at, b).len() == s.len() + 1,
        prefix_at(s.insert(at, b), moved_start(pos, at)) == prefix_at(s, pos),
        run_end(s.insert(at, b), moved_start(pos, at) + len, ByteClass::Whitespace)
            == moved_start(run_end(s, pos + len, ByteClass::Whitespace), at),
        run_end(s, pos + len, ByteClass::Whitespace) < s.len() ==> s.insert(at, b)[moved_start(
            run_end(s, pos + len, ByteClass::Whitespace),
            at,
        )] == s[run_end(s, pos + len, ByteClass::Whitespace)],
{
    lemma_inserted(s, at, b);
    lemma_prefix_kept(s, at, b, pos);
    let after = pos + len;
    let after2 = moved_start(pos, at) + len;
    assert(after2 == moved_end(after, at) || after2 == moved_start(after, at));
    lemma_run_absorbs(s, at, b, after, ByteClass::Whitespace);
    lemma_run_end(s, after, ByteClass::Whitespace);
}

/// A string literal is kept, with its text, unless the byte is put in
/// between its quotes.
proof fn lemma_string_kept(s: Seq<u8>, at: int, b: u8, body: int)
    requires
        0 <= at <= s.len(),
        0 <= body < s.len(),
        is_whitespace(b),
        string_at(s, body) matches Some(end) && !(body < at < end),
    ensures
        string_at(s.insert(at, b), moved_start(body, at)) == Some(
            moved_end(string_at(s, body)->0, at),
        ),
        s.insert(at, b).subrange(
            moved_start(body, at) + 1,
            moved_end(string_at(s, body)->0, at) - 1,
        ) == s.subrange(body + 1, string_at(s, body)->0 - 1),
{
    let t = s.insert(at, b);
    let body2 = moved_start(body, at);
    lemma_inserted(s, at, b);
    lemma_run_absorbs(s, at, b, body + 1, ByteClass::StringBody);
    lemma_run_end(s, body + 1, ByteClass::StringBody);
    let close = run_end(s, body + 1, ByteClass::StringBody);
    assert(body2 + 1 == moved_end(body + 1, at));
    assert(t[body2] == s[body]);
    assert(t.subrange(body2 + 1, moved_start(close, at)) =~= s.subrange(body + 1, close));
}

/// Where no string literal starts, none starts after the byte is put in.
proof fn lemma_string_absent(s: Seq<u8>, at: int, b: u8, body: int)
    requires
        0 <= at <= s.len(),
        0 <= body < s.len(),
        is_whitespace(b),
        string_at(s, body) is None,
    ensures
        string_at(s.insert(at, b), moved_start(body, at)) is None,
{
    let t = s.insert(at, b);
    let body2 = moved_start(body, at);
    lemma_inserted(s, at, b);
    assert(t[body2] == s[body]);
    if is_quote(s[body]) {
        lemma_run_absorbs(s, at, b, body + 1, ByteClass::StringBody);
        assert(body2 + 1 == moved_end(body + 1, at));
    }
}

/// An identifier is kept, with its text, unless the byte is put in between
/// two of its bytes.
proof fn lemma_ident_kept(s: Seq<u8>, at: int, b: u8, body: int)
    requires
        0 <= at <= s.len(),
        0 <= body < s.len(),
        is_whitespace(b),
        ByteClass::Ident.contains(s[body]),
        !(body < at < run_end(s, body, ByteClass::Ident)),
    ensures
        run_end(s.insert(at, b), moved_start(body, at), ByteClass::Ident) == moved_end(
            run_end(s, body, ByteClass::Ident),
            at,
        ),
        s.insert(at, b).subrange(
            moved_start(body, at),
            moved_end(run_end(s, body, ByteClass::Ident), at),
        ) == s.subrange(body, run_end(s, body, ByteClass::Ident)),
{
    let t = s.insert(at, b);
    lemma_inserted(s, at, b);
    lemma_run_kept(s, at, b, body, ByteClass::Ident);
    lemma_run_end(s, body, ByteClass::Ident);
    let stop = run_end(s, body, ByteClass::Ident);
    assert(t.subrange(moved_start(body, at), moved_end(stop, at)) =~= s.subrange(body, stop));
}

/// An offset that splits no token of a list splits no token of its elements.
proof fn lemma_elements_unsplit(s: Seq<u8>, atom: AtomView, at: int)
    requires
        atom.kind is List,
        !splits_token(s, atom, at),
    ensures
        splits_none(s, atom.kind->List_0, at),
{
    let children = atom.kind->List_0;
    assert forall|i: int| 0 <= i < children.len() implies !splits_token(
        s,
        #[trigger] children[i],
        at,
    ) by {
        if splits_token(s, children[i], at) {
            assert(0 <= i < children.len() && splits_token(s, children[i], at));
            assert(splits_token(s, atom, at));
        }
    }
}

/// What the s-expression at `pos` becomes when a whitespace byte is put in
/// at `at`, outside its tokens.
proof fn lemma_sexp_widened(s: Seq<u8>, at: int, b: u8, pos: int, depth: Option<nat>)
    requires
        0 <= at <= s.len(),
        is_whitespace(b),
        past_whitespace(s, pos),
        sexp(s, pos, depth) matches Ok((atom, _)) && !splits_token(s, atom, at),
    ensures
        match sexp(s.insert(at, b), moved_start(pos, at), depth) {
            Ok((wider, _)) => same_kinds(sexp(s, pos, depth)->Ok_0.0, wider) && widened(
                sexp(s, pos, depth)->Ok_0.0,
                wider,
                at,
            ),
            Err(e) => e is SpanRange,
        },
    decreases s.len() - pos, 0int,
{
    let t = s.insert(at, b);
    let (atom, end) = sexp(s, pos, depth)->Ok_0;
    let pos2 = moved_start(pos, at);
    lemma_sexp_extent(s, pos, depth);
    let len = prefix_len(atom.prefix);
    lemma_head_kept(s, at, b, pos, len);
    let body = run_end(s, pos + len, ByteClass::Whitespace);
    lemma_run_end(s, pos + len, ByteClass::Whitespace);
    assert(body == body_start(s, atom));
    assert(closing(s[body]) is None);
    if opening(s[body]) is Some {
        let bracket = opening(s[body])->0;
        lemma_byte_kept(s, at, b, body);
        lemma_run_end(s, body + 1, ByteClass::Whitespace);
        let inner = run_end(s, body + 1, ByteClass::Whitespace);
        let (children, stop) = items(s, inner, inside(depth))->Ok_0;
        assert(atom.kind == AtomKindView::List(children, bracket));
        lemma_elements_unsplit(s, atom, at);
        lemma_items_extent(s, inner, inside(depth));
        lemma_items_widened(s, at, b, inner, inside(depth));
        lemma_byte_kept(s, at, b, stop);
    } else if string_at(s, body) is Some {
        lemma_string_kept(s, at, b, body);
    } else {
        lemma_string_absent(s, at, b, body);
        lemma_ident_kept(s, at, b, body);
    }
}

/// What the run of s-expressions at `pos` becomes when a whitespace byte is
/// put in at `at`, outside its tokens.
proof fn lemma_items_widened(s: Seq<u8>, at: int, b: u8, pos: int, depth: Option<nat>)
    requires
        0 <= at <= s.len(),
        is_whitespace(b),
        past_whitespace(s, pos),
        items(s, pos, depth) matches Ok((atoms, _)) && splits_none(s, atoms, at),
    ensures
        match items(s.insert(at, b), moved_start(pos, at), depth) {
            Ok((wider, stop)) => all_widened(items(s, pos, depth)->Ok_0.0, wider, at) && stop
                == moved_start(items(s, pos, depth)->Ok_0.1, at),
            Err(e) => e is SpanRange,
        },
    decreases s.len() - pos, 1int,
{
    let t = s.insert(at, b);
    let (atoms, stop) = items(s, pos, depth)->Ok_0;
    let pos2 = moved_start(pos, at);
    lemma_inserted(s, at, b);
    if pos < s.len() {
        assert(t[pos2] == s[pos]);
    }
    if pos < s.len() && closing(s[pos]) is None {
        lemma_sexp_extent(s, pos, depth);
        lemma_sexp_extent(t, pos2, depth);
        let (first, end) = sexp(s, pos, depth)->Ok_0;
        let next = run_end(s, end, ByteClass::Whitespace);
        lemma_run_end(s, end, ByteClass::Whitespace);
        let rest = items(s, next, depth)->Ok_0.0;
        assert(atoms == seq![first] + rest);
        assert(atoms[0] == first);
        assert forall|i: int| 0 <= i < rest.len() implies !splits_token(
            s,
            #[trigger] rest[i],
            at,
        ) by {
            assert(rest[i] == atoms[i + 1]);
        }
        lemma_sexp_widened(s, at, b, pos, depth);
        if let Ok((first2, end2)) = sexp(t, pos2, depth) {
            lemma_run_absorbs(s, at, b, end, ByteClass::Whitespace);
            assert(run_end(t, end2, ByteClass::Whitespace) == moved_start(next, at));
            lemma_items_widened(s, at, b, next, depth);
            if let Ok((rest2, stop2)) = items(t, moved_start(next, at), depth) {
                let wider = seq![first2] + rest2;
                assert forall|i: int| 0 <= i < atoms.len() implies same_kinds(
                    #[trigger] atoms[i],
                    wider[i],
                ) && widened(atoms[i], wider[i], at) by {
                    if i > 0 {
                        assert(atoms[i] == rest[i - 1]);
                        assert(wider[i] == rest2[i - 1]);
                    }
                }
            }
        }
    }
}

/// Whitespace insensitivity. Take an input that reads successfully and put
/// one more whitespace byte in at any offset that is not strictly inside a
/// token: between two tokens, next to a bracket on either side, next to
/// other whitespace, or at either end of the input. Reading the new input
/// gives atoms of the same kinds, nested in the same way; only their spans
/// move with their bytes or take in the new byte.
///
/// The one exception is the length limit of spans: a span that takes in the
/// new byte may pass it, and reading then fails with `SpanRange`. That
/// cannot happen on inputs shorter than the limit.
pub proof fn lemma_whitespace_insensitive(s: Seq<u8>, at: int, b: u8, depth: Option<nat>)
    requires
        0 <= at <= s.len(),
        is_whitespace(b),
        program_within(s, depth) matches Ok(atoms) && splits_none(s, atoms, at),
    ensures
        match program_within(s.insert(at, b), depth) {
            Ok(wider) => all_widened(program_within(s, depth)->Ok_0, wider, at),
            Err(e) => e is SpanRange,
        },
        s.len() < MAX_SPAN_LEN ==> program_within(s.insert(at, b), depth) is Ok,
{
    let t = s.insert(at, b);
    lemma_inserted(s, at, b);
    lemma_run_absorbs(s, at, b, 0, ByteClass::Whitespace);
    lemma_run_end(s, 0, ByteClass::Whitespace);
    let start = run_end(s, 0, ByteClass::Whitespace);
    lemma_items_extent(s, start, depth);
    lemma_items_widened(s, at, b, start, depth);
    if s.len() < MAX_SPAN_LEN {
        lemma_short_input_fits(t, depth);
    }
}

} // verus!
