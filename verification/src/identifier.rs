//! The names of the output modules and their order.

use crate::order::{names_less, str_less, views};
use crate::text::{clone_names, join, joined};
use vstd::prelude::*;
use vstd::string::*;

verus! {

/// Which output module: the main module, the chunk shared by a set of
/// splits, given as their names in ascending order, or a split.
///
/// The variants stand in the order of the output modules: the main module
/// first, then the chunks, then the splits, so that a chunk is declared
/// before the splits that depend on it.
#[derive(Debug, PartialEq, Eq, PartialOrd, Ord, Hash, Clone)]
pub enum SplitModuleIdentifier {
    Main,
    Chunk(Vec<String>),
    Split(String),
}

/// A `SplitModuleIdentifier` with its names as sequences of characters.
pub enum IdentifierView {
    Main,
    Chunk(Seq<Seq<char>>),
    Split(Seq<char>),
}

impl View for SplitModuleIdentifier {
    type V = IdentifierView;

    open spec fn view(&self) -> IdentifierView {
        match *self {
            SplitModuleIdentifier::Main => IdentifierView::Main,
            SplitModuleIdentifier::Chunk(names) => IdentifierView::Chunk(views(names@)),
            SplitModuleIdentifier::Split(name) => IdentifierView::Split(name@),
        }
    }
}

/// Whether the output module `a` comes before `b`: the main module before
/// the chunks, the chunks before the splits, two chunks by their lists of
/// names and two splits by their names, both lexicographically.
pub open spec fn ident_less(a: IdentifierView, b: IdentifierView) -> bool {
    match a {
        IdentifierView::Main => !(b is Main),
        IdentifierView::Chunk(x) => match b {
            IdentifierView::Main => false,
            IdentifierView::Chunk(y) => names_less(x, y),
            IdentifierView::Split(_) => true,
        },
        IdentifierView::Split(x) => match b {
            IdentifierView::Split(y) => str_less(x, y),
            _ => false,
        },
    }
}

/// The file name of an output module without its extension: `main`, the
/// name of the split, or the names of the chunk's splits joined by `_`.
pub open spec fn ident_name(id: IdentifierView) -> Seq<char> {
    match id {
        IdentifierView::Main => "main"@,
        IdentifierView::Chunk(names) => joined(names, "_"@),
        IdentifierView::Split(name) => name,
    }
}

impl SplitModuleIdentifier {
    /// The file name of this output module without its extension.
    pub fn name(&self) -> (r: String)
        ensures
            r@ == ident_name(self@),
    {
        match self {
            SplitModuleIdentifier::Main => String::from_str("main"),
            SplitModuleIdentifier::Chunk(names) => {
                assert(views(names@) =~= Seq::new(names@.len(), |i: int| names@[i]@));
                join(names, "_")
            },
            SplitModuleIdentifier::Split(name) => name.clone(),
        }
    }

    /// The name of the file that holds this output module.
    pub fn file_name(&self) -> (r: String)
        ensures
            r@ == ident_name(self@) + ".wasm"@,
    {
        let mut name = self.name();
        name.append(".wasm");
        name
    }

    /// Whether the two identifiers name the same output module.
    pub fn same(&self, other: &SplitModuleIdentifier) -> (r: bool)
        ensures
            r == (self@ == other@),
    {
        match (self, other) {
            (SplitModuleIdentifier::Main, SplitModuleIdentifier::Main) => true,
            (SplitModuleIdentifier::Split(a), SplitModuleIdentifier::Split(b)) => *a == *b,
            (SplitModuleIdentifier::Chunk(a), SplitModuleIdentifier::Chunk(b)) => {
                if a.len() != b.len() {
                    assert(views(a@).len() != views(b@).len());
                    return false;
                }
                let mut i: usize = 0;
                while i < a.len()
                    invariant
                        i <= a@.len(),
                        a@.len() == b@.len(),
                        self@ == IdentifierView::Chunk(views(a@)),
                        other@ == IdentifierView::Chunk(views(b@)),
                        forall|j: int| 0 <= j < i ==> views(a@)[j] == views(b@)[j],
                    decreases a@.len() - i,
                {
                    if a[i] != b[i] {
                        assert(views(a@)[i as int] != views(b@)[i as int]);
                        return false;
                    }
                    i += 1;
                }
                assert(views(a@) =~= views(b@));
                true
            },
            _ => false,
        }
    }

    /// A copy of this identifier.
    pub fn duplicate(&self) -> (r: SplitModuleIdentifier)
        ensures
            r@ == self@,
    {
        match self {
            SplitModuleIdentifier::Main => SplitModuleIdentifier::Main,
            SplitModuleIdentifier::Chunk(names) => {
                let copy = clone_names(names);
                assert(views(copy@) =~= views(names@));
                SplitModuleIdentifier::Chunk(copy)
            },
            SplitModuleIdentifier::Split(name) => SplitModuleIdentifier::Split(name.clone()),
        }
    }
}

} // verus!
