//! The reader for whole source units.
//!
//! The grammar is recursive, the reader is not: the lists whose closing
//! bracket is still to come are kept on a stack of its own, so the depth of
//! nesting in the input costs memory on the heap and never call-stack depth.

use crate::ast::{
    lemma_list_view, views, Atom, AtomKind, AtomKindView, AtomView, BracketKind, PrefixKind,
};
use crate::error::{syntax_error, Expected, ParseError, SyntaxError};
use crate::grammar;
use crate::grammar::ByteClass;
use crate::lexer::{closing, opening, prefix_at, scan, string_at};
use crate::span::Span;
use crate::text::{
    bytes_of, lemma_boundary_after_ascii, lemma_boundary_after_ascii_run, lemma_boundary_at_ascii,
    lemma_source_is_utf8, substring,
};
use vstd::prelude::*;
use vstd::string::*;
use vstd::utf8::*;

verus! {

/// An executable result, atom and next offset, agrees with the grammar's.
spec fn advances(
    r: Result<(Atom, usize), ParseError>,
    model: Result<(AtomView, int), ParseError>,
) -> bool {
    match model {
        Ok((node, end)) => r matches Ok((atom, next)) && atom@ == node && next == end,
        Err(e) => r matches Err(err) && err == e,
    }
}

/// An executable result, the atoms of a source unit, agrees with the grammar's.
pub open spec fn reads(
    r: Result<Vec<Atom>, ParseError>,
    model: Result<Seq<AtomView>, ParseError>,
) -> bool {
    match model {
        Ok(nodes) => r matches Ok(atoms) && views(atoms@) == nodes,
        Err(e) => r matches Err(err) && err == e,
    }
}

/// Reading is a function of the bytes alone: two results for the same bytes
/// hold the same atoms or the same error.
pub proof fn lemma_readings_agree(
    a: Result<Vec<Atom>, ParseError>,
    b: Result<Vec<Atom>, ParseError>,
    model: Result<Seq<AtomView>, ParseError>,
)
    requires
        reads(a, model),
        reads(b, model),
    ensures
        a matches Ok(atoms) ==> (b matches Ok(others) && views(atoms@) == views(others@)),
        a matches Err(e) ==> (b matches Err(other) && e == other),
{
}

/// A list whose opening bracket has been read and whose closing bracket is
/// still to come.
struct Frame {
    /// Offset of the first byte of the list atom.
    start: usize,
    prefix: Option<PrefixKind>,
    bracket: BracketKind,
    /// The atoms read before this list in the run that the list belongs to.
    before: Vec<Atom>,
}

/// Model of a [`Frame`].
struct FrameView {
    start: int,
    prefix: Option<PrefixKind>,
    bracket: BracketKind,
    before: Seq<AtomView>,
}

impl View for Frame {
    type V = FrameView;

    closed spec fn view(&self) -> FrameView {
        FrameView {
            start: self.start as int,
            prefix: self.prefix,
            bracket: self.bracket,
            before: views(self.before@),
        }
    }
}

/// Models of a stack of frames, outermost first.
spec fn frame_views(frames: Seq<Frame>) -> Seq<FrameView> {
    Seq::new(frames.len(), |i: int| frames[i]@)
}

/// The nesting budget that is left of `limit` when `open` lists are open.
spec fn budget(limit: Option<usize>, open: nat) -> Option<nat> {
    match limit {
        Some(max) => Some((max - open) as nat),
        None => None,
    }
}

/// What reading a source unit yields when it goes on at `cur`, with `acc`
/// already read in the current run and the lists of `open` still to close.
spec fn resume(
    s: Seq<u8>,
    open: Seq<FrameView>,
    acc: Seq<AtomView>,
    cur: int,
    limit: Option<usize>,
) -> Result<Seq<AtomView>, ParseError>
    decreases open.len(),
{
    match grammar::items(s, cur, budget(limit, open.len())) {
        Err(e) => Err(e),
        Ok((more, stop)) => {
            if open.len() == 0 {
                if stop >= s.len() {
                    Ok(acc + more)
                } else {
                    Err(syntax_error(stop, Expected::element_or_end()))
                }
            } else {
                let frame = open.last();
                if 0 <= stop < s.len() && grammar::closing(s[stop]) == Some(frame.bracket) {
                    match grammar::step(
                        frame.prefix,
                        AtomKindView::List(acc + more, frame.bracket),
                        frame.start,
                        grammar::run_end(s, stop + 1, ByteClass::Whitespace),
                    ) {
                        Ok((atom, end)) => resume(
                            s,
                            open.drop_last(),
                            frame.before.push(atom),
                            end,
                            limit,
                        ),
                        Err(e) => Err(e),
                    }
                } else {
                    Err(syntax_error(stop, Expected::element_or_close(frame.bracket)))
                }
            }
        },
    }
}

/// Skipping a run twice ends where skipping it once ends.
proof fn lemma_run_end_idempotent(s: Seq<u8>, pos: int, class: ByteClass)
    requires
        0 <= pos <= s.len(),
    ensures
        grammar::run_end(s, grammar::run_end(s, pos, class), class) == grammar::run_end(
            s,
            pos,
            class,
        ),
{
    grammar::lemma_run_end(s, pos, class);
}

/// Reading on at an s-expression is reading on after it with its atom added
/// to the current run.
proof fn lemma_resume_next(
    s: Seq<u8>,
    open: Seq<FrameView>,
    acc: Seq<AtomView>,
    cur: int,
    limit: Option<usize>,
)
    requires
        0 <= cur < s.len(),
        grammar::closing(s[cur]) is None,
    ensures
        match grammar::sexp(s, cur, budget(limit, open.len())) {
            Ok((atom, end)) => resume(s, open, acc, cur, limit) == resume(
                s,
                open,
                acc.push(atom),
                grammar::run_end(s, end, ByteClass::Whitespace),
                limit,
            ),
            Err(e) => resume(s, open, acc, cur, limit) == Err::<Seq<AtomView>, ParseError>(e),
        },
{
    let depth = budget(limit, open.len());
    grammar::lemma_sexp_extent(s, cur, depth);
    if let Ok((atom, end)) = grammar::sexp(s, cur, depth) {
        let next = grammar::run_end(s, end, ByteClass::Whitespace);
        if let Ok((more, _)) = grammar::items(s, next, depth) {
            assert(acc + (seq![atom] + more) =~= acc.push(atom) + more);
        }
    }
}

/// Reading on at a list is reading on at its first element with the list
/// put on the stack.
proof fn lemma_resume_open(
    s: Seq<u8>,
    open: Seq<FrameView>,
    acc: Seq<AtomView>,
    cur: int,
    frame: FrameView,
    body: int,
    limit: Option<usize>,
)
    requires
        0 <= cur <= body < s.len(),
        grammar::closing(s[cur]) is None,
        grammar::prefix_at(s, cur) matches Some((kind, len)) ==> frame.prefix == Some(kind) && body
            == grammar::run_end(s, cur + len, ByteClass::Whitespace),
        grammar::prefix_at(s, cur) is None ==> frame.prefix is None && body == grammar::run_end(
            s,
            cur,
            ByteClass::Whitespace,
        ),
        grammar::opening(s[body]) == Some(frame.bracket),
        frame.start == cur,
        frame.before == acc,
        limit matches Some(max) ==> open.len() < max,
    ensures
        resume(s, open, acc, cur, limit) == resume(
            s,
            open.push(frame),
            Seq::empty(),
            grammar::run_end(s, body + 1, ByteClass::Whitespace),
            limit,
        ),
{
    let inner = grammar::run_end(s, body + 1, ByteClass::Whitespace);
    let deeper = open.push(frame);
    let depth = budget(limit, open.len());
    assert(deeper.last() == frame);
    assert(deeper.drop_last() =~= open);
    assert(grammar::inside(depth) == budget(limit, deeper.len()));
    lemma_resume_next(s, open, acc, cur, limit);
    grammar::lemma_run_end(s, body + 1, ByteClass::Whitespace);
    grammar::lemma_items_extent(s, inner, grammar::inside(depth));
    if let Ok((children, stop)) = grammar::items(s, inner, grammar::inside(depth)) {
        assert(Seq::<AtomView>::empty() + children =~= children);
        if stop < s.len() {
            lemma_run_end_idempotent(s, stop + 1, ByteClass::Whitespace);
        }
    }
}

/// Skipping whitespace from an offset between characters ends between
/// characters.
proof fn lemma_boundary_after_whitespace(s: Seq<u8>, from: int)
    requires
        valid_utf8(s),
        0 <= from <= s.len(),
        is_char_boundary(s, from),
    ensures
        is_char_boundary(s, grammar::run_end(s, from, ByteClass::Whitespace)),
{
    grammar::lemma_run_end(s, from, ByteClass::Whitespace);
    let to = grammar::run_end(s, from, ByteClass::Whitespace);
    assert forall|i: int| from <= i < to implies #[trigger] s[i] < 0x80 by {
        assert(ByteClass::Whitespace.contains(s[i]));
    }
    lemma_boundary_after_ascii_run(s, from, to);
}

/// The syntax error at `offset` for an s-expression whose body is missing.
fn missing_body(offset: usize, prefix: bool) -> (e: ParseError)
    ensures
        e == syntax_error(offset as int, Expected::atom(prefix)),
{
    ParseError::Syntax(
        SyntaxError {
            offset,
            expected: Expected {
                prefix,
                list: true,
                string: true,
                ident: true,
                close: None,
                end: false,
            },
        },
    )
}

/// The syntax error at `offset` for a list that would be nested too deeply.
fn too_deep(offset: usize, prefix: bool) -> (e: ParseError)
    ensures
        e == syntax_error(offset as int, Expected::leaf(prefix)),
{
    ParseError::Syntax(
        SyntaxError {
            offset,
            expected: Expected {
                prefix,
                list: false,
                string: true,
                ident: true,
                close: None,
                end: false,
            },
        },
    )
}

/// The syntax error at `offset` for a run of s-expressions that neither goes
/// on nor ends as it should: with the bracket that closes `list`, or with
/// the end of the input where no list is open.
fn unfinished(offset: usize, list: Option<BracketKind>) -> (e: ParseError)
    ensures
        e == syntax_error(
            offset as int,
            match list {
                Some(bracket) => Expected::element_or_close(bracket),
                None => Expected::element_or_end(),
            },
        ),
{
    ParseError::Syntax(
        SyntaxError {
            offset,
            expected: Expected {
                prefix: true,
                list: true,
                string: true,
                ident: true,
                close: list,
                end: list.is_none(),
            },
        },
    )
}

/// Number of atoms in `atom`, itself and the nested ones.
spec fn nodes(atom: AtomView) -> nat
    decreases atom,
{
    match atom.kind {
        AtomKindView::List(children, _) => 1 + nodes_in(children),
        _ => 1,
    }
}

/// Number of atoms in `atoms`, the nested ones included.
spec fn nodes_in(atoms: Seq<AtomView>) -> nat
    decreases atoms,
{
    if atoms.len() == 0 {
        0
    } else {
        nodes_in(atoms.drop_last()) + nodes(atoms.last())
    }
}

/// The atoms of two runs put together are counted run by run.
proof fn lemma_nodes_in_concat(a: Seq<AtomView>, b: Seq<AtomView>)
    ensures
        nodes_in(a + b) == nodes_in(a) + nodes_in(b),
    decreases b.len(),
{
    if b.len() == 0 {
        assert(a + b =~= a);
    } else {
        assert((a + b).drop_last() =~= a + b.drop_last());
        assert((a + b).last() == b.last());
        lemma_nodes_in_concat(a, b.drop_last());
    }
}

/// Frees `atoms` without recursion, however deeply they are nested.
fn discard(atoms: Vec<Atom>) {
    let mut work = atoms;
    loop
        decreases nodes_in(views(work@)),
    {
        let ghost before = views(work@);
        match work.pop() {
            None => {
                return ;
            },
            Some(atom) => {
                let ghost node = atom@;
                let ghost rest = views(work@);
                proof {
                    assert(rest =~= before.drop_last());
                    assert(before.last() == node);
                    assert(nodes_in(before) == nodes_in(rest) + nodes(node));
                }
                let Atom { prefix: _, kind, span: _ } = atom;
                assert(node.kind == kind@);
                match kind {
                    AtomKind::List(mut items, bracket) => {
                        proof {
                            lemma_list_view(items, bracket);
                            assert(nodes(node) == 1 + nodes_in(views(items@)));
                            lemma_nodes_in_concat(rest, views(items@));
                            assert(views(work@ + items@) =~= rest + views(items@));
                        }
                        work.append(&mut items);
                    },
                    _ => {
                        assert(nodes(node) == 1);
                    },
                }
            },
        }
    }
}

/// Gives up reading with the error `e`: frees what was read so far, without
/// recursion, and returns the error.
fn abandon(open: Vec<Frame>, atoms: Vec<Atom>, e: ParseError) -> (r: Result<
    Vec<Atom>,
    ParseError,
>)
    ensures
        r matches Err(err) && err == e,
{
    discard(atoms);
    let mut open = open;
    loop
        decreases open.len(),
    {
        match open.pop() {
            None => {
                return Err(e);
            },
            Some(frame) => {
                discard(frame.before);
            },
        }
    }
}

/// Reads the string literal or identifier whose first byte is at `body`, as
/// the body of the s-expression that starts at `pos` with `prefix`.
fn token_at(src: &str, pos: usize, prefix: Option<PrefixKind>, body: usize) -> (r: Result<
    (Atom, usize),
    ParseError,
>)
    requires
        pos <= body < bytes_of(src).len(),
        is_char_boundary(bytes_of(src), body as int),
        ByteClass::Ident.contains(bytes_of(src)[body as int]),
    ensures
        advances(
            r,
            match grammar::string_at(bytes_of(src), body as int) {
                Some(end) => grammar::step(
                    prefix,
                    AtomKindView::String(bytes_of(src).subrange(body + 1, end - 1)),
                    pos as int,
                    end,
                ),
                None => grammar::step(
                    prefix,
                    AtomKindView::Ident(
                        bytes_of(src).subrange(
                            body as int,
                            grammar::run_end(bytes_of(src), body as int, ByteClass::Ident),
                        ),
                    ),
                    pos as int,
                    grammar::run_end(bytes_of(src), body as int, ByteClass::Ident),
                ),
            },
        ),
        r matches Ok((_, end)) ==> body < end <= bytes_of(src).len() && is_char_boundary(
            bytes_of(src),
            end as int,
        ),
{
    let bytes = src.as_bytes();
    let ghost s = bytes@;
    proof {
        lemma_source_is_utf8(src);
    }
    match string_at(bytes, body) {
        Some(end) => {
            proof {
                lemma_boundary_after_ascii(s, body as int);
                lemma_boundary_at_ascii(s, end - 1);
                lemma_boundary_after_ascii(s, end - 1);
            }
            match Span::new(pos, end) {
                Err(e) => Err(ParseError::SpanRange(e)),
                Ok(span) => {
                    let text = substring(src, body + 1, end - 1);
                    Ok((Atom { prefix, kind: AtomKind::String(text), span }, end))
                },
            }
        },
        None => {
            let end = scan(bytes, body, ByteClass::Ident);
            proof {
                grammar::lemma_run_end(s, body as int, ByteClass::Ident);
                lemma_boundary_at_ascii(s, end as int);
            }
            match Span::new(pos, end) {
                Err(e) => Err(ParseError::SpanRange(e)),
                Ok(span) => {
                    let text = substring(src, body, end);
                    Ok((Atom { prefix, kind: AtomKind::Ident(text), span }, end))
                },
            }
        },
    }
}

/// Reads a whole source unit: whitespace, then s-expressions separated by
/// optional whitespace, up to the end of the input.
///
/// The result is the sequence of top-level atoms that the grammar assigns to
/// the bytes of `src`, or the grammar's error for them: the first offset at
/// which no alternative matches, or the first atom too long for a span.
/// Nothing is returned for an input that fails.
///
/// Reading itself never recurses, and what was read before a failure is
/// freed without recursion too. Lists may be nested as deeply as their spans
/// allow; see [`program_within`] for a stricter limit.
pub fn program(src: &str) -> (r: Result<Vec<Atom>, ParseError>)
    ensures
        reads(r, grammar::program(bytes_of(src))),
{
    read(src, None)
}

/// Reads a whole source unit as [`program`] does, but lets at most
/// `max_depth` lists be open at once.
///
/// A list inside `max_depth` others is a syntax error at its opening
/// bracket: there only a string literal or an identifier is expected. With
/// `max_depth` zero every list is.
pub fn program_within(src: &str, max_depth: usize) -> (r: Result<Vec<Atom>, ParseError>)
    ensures
        reads(r, grammar::program_within(bytes_of(src), Some(max_depth as nat))),
{
    read(src, Some(max_depth))
}

/// Reads a whole source unit with at most `limit` lists open at once.
fn read(src: &str, limit: Option<usize>) -> (r: Result<Vec<Atom>, ParseError>)
    ensures
        reads(r, grammar::program_within(bytes_of(src), budget(limit, 0))),
{
    let bytes = src.as_bytes();
    let size = bytes.len();
    let ghost s = bytes@;
    let mut open: Vec<Frame> = Vec::new();
    let mut atoms: Vec<Atom> = Vec::new();
    let mut cur: usize = scan(bytes, 0, ByteClass::Whitespace);
    proof {
        lemma_source_is_utf8(src);
        lemma_boundary_after_whitespace(s, 0);
        assert(frame_views(open@) =~= Seq::empty());
        assert(views(atoms@) =~= Seq::empty());
        match grammar::items(s, cur as int, budget(limit, 0)) {
            Ok((nodes, _)) => assert(Seq::<AtomView>::empty() + nodes =~= nodes),
            Err(_) => {},
        }
    }
    loop
        invariant
            s == bytes@,
            s == bytes_of(src),
            size == s.len(),
            valid_utf8(s),
            cur <= s.len(),
            is_char_boundary(s, cur as int),
            limit matches Some(max) ==> open.len() <= max,
            grammar::program_within(s, budget(limit, 0)) == resume(
                s,
                frame_views(open@),
                views(atoms@),
                cur as int,
                limit,
            ),
        decreases 2 * (s.len() - cur) + open.len(),
    {
        let ghost stack = frame_views(open@);
        let ghost acc = views(atoms@);
        if cur >= size || closing(bytes[cur]).is_some() {
            proof {
                assert(acc + Seq::empty() =~= acc);
            }
            match open.pop() {
                None => {
                    return if cur >= size {
                        Ok(atoms)
                    } else {
                        abandon(open, atoms, unfinished(cur, None))
                    };
                },
                Some(frame) => {
                    proof {
                        assert(stack.last() == frame@);
                        assert(frame_views(open@) =~= stack.drop_last());
                    }
                    let closed = cur < size && match closing(bytes[cur]) {
                        Some(kind) => kind == frame.bracket,
                        None => false,
                    };
                    if !closed {
                        discard(frame.before);
                        return abandon(open, atoms, unfinished(cur, Some(frame.bracket)));
                    }
                    let end = scan(bytes, cur + 1, ByteClass::Whitespace);
                    proof {
                        lemma_boundary_after_ascii(s, cur as int);
                        lemma_boundary_after_whitespace(s, cur + 1);
                        lemma_list_view(atoms, frame.bracket);
                    }
                    match Span::new(frame.start, end) {
                        Err(e) => {
                            discard(frame.before);
                            return abandon(open, atoms, ParseError::SpanRange(e));
                        },
                        Ok(span) => {
                            let list = Atom {
                                prefix: frame.prefix,
                                kind: AtomKind::List(atoms, frame.bracket),
                                span,
                            };
                            atoms = frame.before;
                            proof {
                                assert(views(atoms@.push(list)) =~= views(atoms@).push(list@));
                            }
                            atoms.push(list);
                            cur = end;
                        },
                    }
                },
            }
        } else {
            let (prefix, after_prefix): (Option<PrefixKind>, usize) = match prefix_at(bytes, cur) {
                Some((kind, len)) => (Some(kind), cur + len),
                None => (None, cur),
            };
            let body = scan(bytes, after_prefix, ByteClass::Whitespace);
            proof {
                assert forall|i: int| cur <= i < after_prefix implies #[trigger] s[i] < 0x80 by {}
                lemma_boundary_after_ascii_run(s, cur as int, after_prefix as int);
                lemma_boundary_after_whitespace(s, after_prefix as int);
                grammar::lemma_run_end(s, after_prefix as int, ByteClass::Whitespace);
                lemma_resume_next(s, stack, acc, cur as int, limit);
            }
            if body >= size {
                return abandon(open, atoms, missing_body(body, prefix.is_none()));
            }
            let first = bytes[body];
            match opening(first) {
                Some(bracket) => {
                    let full = match limit {
                        Some(max) => open.len() >= max,
                        None => false,
                    };
                    if full {
                        return abandon(open, atoms, too_deep(body, prefix.is_none()));
                    }
                    let inner = scan(bytes, body + 1, ByteClass::Whitespace);
                    let frame = Frame { start: cur, prefix, bracket, before: atoms };
                    proof {
                        lemma_boundary_after_ascii(s, body as int);
                        lemma_boundary_after_whitespace(s, body + 1);
                        lemma_resume_open(s, stack, acc, cur as int, frame@, body as int, limit);
                        assert(frame_views(open@.push(frame)) =~= stack.push(frame@));
                    }
                    open.push(frame);
                    atoms = Vec::new();
                    proof {
                        assert(views(atoms@) =~= Seq::empty());
                    }
                    cur = inner;
                },
                None => {
                    if closing(first).is_some() {
                        return abandon(open, atoms, missing_body(body, prefix.is_none()));
                    }
                    match token_at(src, cur, prefix, body) {
                        Err(e) => {
                            return abandon(open, atoms, e);
                        },
                        Ok((atom, end)) => {
                            let next = scan(bytes, end, ByteClass::Whitespace);
                            proof {
                                lemma_boundary_after_whitespace(s, end as int);
                                assert(views(atoms@.push(atom)) =~= acc.push(atom@));
                            }
                            atoms.push(atom);
                            cur = next;
                        },
                    }
                },
            }
        }
    }
}

} // verus!
