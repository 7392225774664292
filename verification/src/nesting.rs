//! How deeply lists nest: what a nesting limit rejects, what it lets
//! through unchanged, and the limit that the length of spans sets by itself.

use crate::ast::{AtomKindView, AtomView};
use crate::grammar::{
    closing, items, lemma_items_extent, lemma_items_unlimited, lemma_run_end, lemma_sexp_extent,
    opening, prefix_at, program, program_within, run_end, sexp, ByteClass,
};
use crate::laws::{lemma_atom_is_sexp, occurs_among};
use vstd::prelude::*;

verus! {

/// Deepest nesting that a span can hold: every list takes two bytes for its
/// brackets around what it encloses.
pub const MAX_NESTING: usize = 32767;

/// No list in `atom`, itself included, lies inside `depth` or more others
/// counted from `atom`: an identifier or string literal always qualifies, a
/// list needs a `depth` of at least one.
pub open spec fn nested_within(atom: AtomView, depth: nat) -> bool
    decreases atom,
{
    match atom.kind {
        AtomKindView::List(children, _) => depth > 0 && forall|i: int|
            0 <= i < children.len() ==> nested_within(#[trigger] children[i], (depth - 1) as nat),
        _ => true,
    }
}

/// `nested_within`, for each of `atoms`.
pub open spec fn all_nested_within(atoms: Seq<AtomView>, depth: nat) -> bool {
    forall|i: int| 0 <= i < atoms.len() ==> nested_within(#[trigger] atoms[i], depth)
}

/// What fits a depth fits every greater depth.
pub proof fn lemma_nested_monotone(atom: AtomView, depth: nat, more: nat)
    requires
        nested_within(atom, depth),
        depth <= more,
    ensures
        nested_within(atom, more),
    decreases atom,
{
    if let AtomKindView::List(children, _) = atom.kind {
        assert forall|i: int| 0 <= i < children.len() implies nested_within(
            #[trigger] children[i],
            (more - 1) as nat,
        ) by {
            lemma_nested_monotone(children[i], (depth - 1) as nat, (more - 1) as nat);
        }
    }
}

/// An s-expression read within a budget nests no deeper than the budget.
proof fn lemma_sexp_nested(s: Seq<u8>, pos: int, depth: nat)
    ensures
        sexp(s, pos, Some(depth)) matches Ok((atom, _)) ==> nested_within(atom, depth),
    decreases s.len() - pos, 0int,
{
    if let Ok((atom, _)) = sexp(s, pos, Some(depth)) {
        let after_prefix = match prefix_at(s, pos) {
            Some((_, len)) => pos + len,
            None => pos,
        };
        lemma_run_end(s, after_prefix, ByteClass::Whitespace);
        let body = run_end(s, after_prefix, ByteClass::Whitespace);
        if opening(s[body]) is Some {
            lemma_run_end(s, body + 1, ByteClass::Whitespace);
            lemma_items_nested(
                s,
                run_end(s, body + 1, ByteClass::Whitespace),
                (depth - 1) as nat,
            );
        }
    }
}

/// A run read within a budget nests no deeper than the budget.
proof fn lemma_items_nested(s: Seq<u8>, pos: int, depth: nat)
    requires
        0 <= pos <= s.len(),
    ensures
        items(s, pos, Some(depth)) matches Ok((atoms, _)) ==> all_nested_within(atoms, depth),
    decreases s.len() - pos, 1int,
{
    if let Ok((atoms, _)) = items(s, pos, Some(depth)) {
        if pos < s.len() && closing(s[pos]) is None {
            lemma_sexp_nested(s, pos, depth);
            lemma_sexp_extent(s, pos, Some(depth));
            let (first, end) = sexp(s, pos, Some(depth))->Ok_0;
            let next = run_end(s, end, ByteClass::Whitespace);
            lemma_run_end(s, end, ByteClass::Whitespace);
            lemma_items_nested(s, next, depth);
            let rest = items(s, next, Some(depth))->Ok_0.0;
            assert(atoms == seq![first] + rest);
            assert forall|i: int| 0 <= i < atoms.len() implies nested_within(
                #[trigger] atoms[i],
                depth,
            ) by {
                if i > 0 {
                    assert(atoms[i] == rest[i - 1]);
                }
            }
        }
    }
}

/// An s-expression that nests no deeper than a budget reads the same within
/// that budget.
proof fn lemma_sexp_limited(s: Seq<u8>, pos: int, depth: nat)
    requires
        sexp(s, pos, None) matches Ok((atom, _)) && nested_within(atom, depth),
    ensures
        sexp(s, pos, Some(depth)) == sexp(s, pos, None),
    decreases s.len() - pos, 0int,
{
    let after_prefix = match prefix_at(s, pos) {
        Some((_, len)) => pos + len,
        None => pos,
    };
    lemma_run_end(s, after_prefix, ByteClass::Whitespace);
    let body = run_end(s, after_prefix, ByteClass::Whitespace);
    if opening(s[body]) is Some {
        lemma_run_end(s, body + 1, ByteClass::Whitespace);
        let inner = run_end(s, body + 1, ByteClass::Whitespace);
        let atom = sexp(s, pos, None)->Ok_0.0;
        let children = items(s, inner, None)->Ok_0.0;
        assert(atom.kind->List_0 == children);
        assert(all_nested_within(children, (depth - 1) as nat));
        lemma_items_limited(s, inner, (depth - 1) as nat);
    }
}

/// A run that nests no deeper than a budget reads the same within that
/// budget.
proof fn lemma_items_limited(s: Seq<u8>, pos: int, depth: nat)
    requires
        0 <= pos <= s.len(),
        items(s, pos, None) matches Ok((atoms, _)) && all_nested_within(atoms, depth),
    ensures
        items(s, pos, Some(depth)) == items(s, pos, None),
    decreases s.len() - pos, 1int,
{
    if pos < s.len() && closing(s[pos]) is None {
        let atoms = items(s, pos, None)->Ok_0.0;
        lemma_sexp_extent(s, pos, None);
        let (first, end) = sexp(s, pos, None)->Ok_0;
        let next = run_end(s, end, ByteClass::Whitespace);
        lemma_run_end(s, end, ByteClass::Whitespace);
        let rest = items(s, next, None)->Ok_0.0;
        assert(atoms == seq![first] + rest);
        assert(atoms[0] == first);
        assert forall|i: int| 0 <= i < rest.len() implies nested_within(
            #[trigger] rest[i],
            depth,
        ) by {
            assert(rest[i] == atoms[i + 1]);
        }
        lemma_sexp_limited(s, pos, depth);
        lemma_items_limited(s, next, depth);
    }
}

/// An s-expression nests no deeper than half the length of its span.
proof fn lemma_sexp_depth(s: Seq<u8>, pos: int)
    ensures
        sexp(s, pos, None) matches Ok((atom, _)) ==> nested_within(
            atom,
            (atom.span.len() / 2) as nat,
        ),
    decreases s.len() - pos, 0int,
{
    if let Ok((atom, end)) = sexp(s, pos, None) {
        lemma_sexp_extent(s, pos, None);
        let after_prefix = match prefix_at(s, pos) {
            Some((_, len)) => pos + len,
            None => pos,
        };
        lemma_run_end(s, after_prefix, ByteClass::Whitespace);
        let body = run_end(s, after_prefix, ByteClass::Whitespace);
        if opening(s[body]) is Some {
            lemma_run_end(s, body + 1, ByteClass::Whitespace);
            let inner = run_end(s, body + 1, ByteClass::Whitespace);
            lemma_items_extent(s, inner, None);
            lemma_items_depth(s, inner);
            let (children, stop) = items(s, inner, None)->Ok_0;
            lemma_run_end(s, stop + 1, ByteClass::Whitespace);
            let depth = (atom.span.len() / 2) as nat;
            assert forall|i: int| 0 <= i < children.len() implies nested_within(
                #[trigger] children[i],
                (depth - 1) as nat,
            ) by {
                lemma_nested_monotone(
                    children[i],
                    ((stop - inner) / 2) as nat,
                    (depth - 1) as nat,
                );
            }
        }
    }
}

/// A run nests no deeper than half the number of bytes it takes.
proof fn lemma_items_depth(s: Seq<u8>, pos: int)
    requires
        0 <= pos <= s.len(),
    ensures
        items(s, pos, None) matches Ok((atoms, stop)) ==> all_nested_within(
            atoms,
            ((stop - pos) / 2) as nat,
        ),
    decreases s.len() - pos, 1int,
{
    if let Ok((atoms, stop)) = items(s, pos, None) {
        if pos < s.len() && closing(s[pos]) is None {
            lemma_items_extent(s, pos, None);
            lemma_sexp_depth(s, pos);
            lemma_sexp_extent(s, pos, None);
            let (first, end) = sexp(s, pos, None)->Ok_0;
            let next = run_end(s, end, ByteClass::Whitespace);
            lemma_run_end(s, end, ByteClass::Whitespace);
            lemma_items_depth(s, next);
            lemma_items_extent(s, next, None);
            let rest = items(s, next, None)->Ok_0.0;
            assert(atoms == seq![first] + rest);
            let depth = ((stop - pos) / 2) as nat;
            assert forall|i: int| 0 <= i < atoms.len() implies nested_within(
                #[trigger] atoms[i],
                depth,
            ) by {
                if i > 0 {
                    assert(atoms[i] == rest[i - 1]);
                    lemma_nested_monotone(rest[i - 1], ((stop - next) / 2) as nat, depth);
                } else {
                    lemma_nested_monotone(first, (first.span.len() / 2) as nat, depth);
                }
            }
        }
    }
}

/// A nesting limit only ever rejects: where reading within a limit
/// succeeds, reading without one gives the same atoms, and none of them
/// nests deeper than the limit.
pub proof fn lemma_limit_holds(s: Seq<u8>, depth: nat)
    requires
        program_within(s, Some(depth)) is Ok,
    ensures
        program(s) == program_within(s, Some(depth)),
        all_nested_within(program(s)->Ok_0, depth),
{
    let start = run_end(s, 0, ByteClass::Whitespace);
    lemma_run_end(s, 0, ByteClass::Whitespace);
    lemma_items_unlimited(s, start, Some(depth));
    lemma_items_nested(s, start, depth);
}

/// A nesting limit rejects nothing that stays within it: an input whose
/// atoms nest no deeper than the limit reads the same with the limit as
/// without.
pub proof fn lemma_limit_suffices(s: Seq<u8>, depth: nat)
    requires
        program(s) matches Ok(atoms) && all_nested_within(atoms, depth),
    ensures
        program_within(s, Some(depth)) == program(s),
{
    let start = run_end(s, 0, ByteClass::Whitespace);
    lemma_run_end(s, 0, ByteClass::Whitespace);
    lemma_items_limited(s, start, depth);
}

/// The length of spans bounds nesting: no atom of a successful reading
/// nests deeper than `MAX_NESTING`, so whoever walks the atoms recursively
/// goes no deeper than that.
pub proof fn lemma_nesting_bounded(s: Seq<u8>, target: AtomView, depth: Option<nat>)
    requires
        program_within(s, depth) matches Ok(atoms) && occurs_among(target, atoms),
    ensures
        nested_within(target, MAX_NESTING as nat),
{
    lemma_atom_is_sexp(s, target, depth);
    lemma_sexp_depth(s, target.span.start);
    lemma_sexp_extent(s, target.span.start, None);
    lemma_nested_monotone(target, (target.span.len() / 2) as nat, MAX_NESTING as nat);
}

} // verus!
