//! The syntax tree: atoms, their kinds, and the mathematical model of both.

use crate::span::{Span, SpanView};
use vstd::prelude::*;
use vstd::utf8::encode_utf8;

verus! {

/// Quoting marker written in front of an atom.
#[derive(Debug, Clone, Copy, PartialEq, Eq, Hash, Structural)]
pub enum PrefixKind {
    /// `'`
    Quote,
    /// `` ` ``
    QuasiQuote,
    /// `,`
    Unquote,
    /// `,@`
    UnquoteSplicing,
}

/// Delimiter pair that encloses a list.
#[derive(Debug, Clone, Copy, PartialEq, Eq, Hash, Structural)]
pub enum BracketKind {
    /// `(` and `)`
    Round,
    /// `{` and `}`
    Curly,
    /// `[` and `]`
    Square,
}

/// What an atom is.
#[derive(Debug, PartialEq, Eq)]
pub enum AtomKind {
    /// A bare word.
    Ident(String),
    /// The text between two double quotes, taken verbatim.
    String(String),
    /// The elements of a bracketed list, in source order.
    List(Vec<Atom>, BracketKind),
}

/// One node of the syntax tree.
#[derive(Debug, PartialEq, Eq)]
pub struct Atom {
    pub prefix: Option<PrefixKind>,
    pub kind: AtomKind,
    pub span: Span,
}

/// Model of an [`AtomKind`]: text is held as its UTF-8 bytes.
pub enum AtomKindView {
    Ident(Seq<u8>),
    String(Seq<u8>),
    List(Seq<AtomView>, BracketKind),
}

/// Model of an [`Atom`].
pub struct AtomView {
    pub prefix: Option<PrefixKind>,
    pub kind: AtomKindView,
    pub span: SpanView,
}

impl View for AtomKind {
    type V = AtomKindView;

    open spec fn view(&self) -> AtomKindView
        decreases self,
    {
        match self {
            AtomKind::Ident(text) => AtomKindView::Ident(encode_utf8(text@)),
            AtomKind::String(text) => AtomKindView::String(encode_utf8(text@)),
            AtomKind::List(items, bracket) => AtomKindView::List(
                Seq::new(
                    items.len() as nat,
                    |i: int|
                        if 0 <= i < items.len() {
                            items[i]@
                        } else {
                            arbitrary()
                        },
                ),
                *bracket,
            ),
        }
    }
}

impl View for Atom {
    type V = AtomView;

    open spec fn view(&self) -> AtomView
        decreases self,
    {
        AtomView { prefix: self.prefix, kind: self.kind@, span: self.span@ }
    }
}

/// Models of a sequence of atoms, element by element.
pub open spec fn views(atoms: Seq<Atom>) -> Seq<AtomView> {
    Seq::new(atoms.len(), |i: int| atoms[i]@)
}

/// The model of a list holds the models of its elements.
pub proof fn lemma_list_view(items: Vec<Atom>, bracket: BracketKind)
    ensures
        AtomKind::List(items, bracket)@ == AtomKindView::List(views(items@), bracket),
{
    assert(AtomKind::List(items, bracket)@->List_0 =~= views(items@));
}

impl Atom {
    /// An atom made of its three parts.
    pub fn new(prefix: Option<PrefixKind>, kind: AtomKind, span: Span) -> (atom: Atom)
        ensures
            atom.prefix == prefix,
            atom.kind == kind,
            atom.span == span,
    {
        Atom { prefix, kind, span }
    }
}

} // verus!
