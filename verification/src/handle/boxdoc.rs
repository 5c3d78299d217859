//! `BoxDoc`: a document that owns its children through `Box`.

use vstd::prelude::*;
use vstd::string::*;

use crate::document::{
    break_accepts, break_refusal, doc_tree, first_tab, flat_fragment_outcome, flat_tree,
    free_of_tabs, intersperse, interspersed_copies, non_nil, seq_status_ok, sequence_tree,
    text_to_pieces, text_trees, trees_of,
    BreakNodeInvalid, ContainsTab, DocTree, Document, FragmentError, GroupPolicy,
};
use crate::lines::free_of_linebreaks;

verus! {

/// The document format that owns and heap-allocates all of its children via `Box`.
#[derive(Debug, PartialEq, Eq, Hash)]
pub struct BoxDoc<A = ()>(pub Box<Document<A>>);

/// The earlier name of `BoxDoc`.
pub type OwnedDoc<A = ()> = BoxDoc<A>;

impl<A> core::ops::Deref for BoxDoc<A> {
    type Target = Document<A>;

    fn deref(&self) -> (r: &Document<A>)
        ensures
            *r == *self.0,
    {
        &*self.0
    }
}

impl<A> BoxDoc<A> {
    /// The nil node.
    pub fn nil() -> (r: Self)
        ensures
            doc_tree(r) == DocTree::<A>::Nil,
    {
        Document::nil()
    }

    /// Literal text, split along its newline sequences. The text must hold
    /// no tab.
    pub fn from_text(payload: &str) -> (r: Self)
        requires
            free_of_tabs(payload.spec_bytes()),
            seq_status_ok(text_trees::<A>(text_to_pieces(payload@))),
        ensures
            doc_tree(r) == sequence_tree(text_trees::<A>(text_to_pieces(payload@))),
    {
        match Document::from_text(payload) {
            Ok(d) => d,
            Err(_) => {
                proof {
                    assert(false);
                }
                Document::nil()
            },
        }
    }

    /// Literal text, split along its newline sequences.
    ///
    /// Fails when the text holds a tab, reporting the first.
    pub fn from_text_(payload: &str) -> (r: Result<Self, ContainsTab>)
        requires
            free_of_tabs(payload.spec_bytes()) ==> seq_status_ok(text_trees::<A>(text_to_pieces(payload@))),
        ensures
            match r {
                Ok(d) => {
                    &&& free_of_tabs(payload.spec_bytes())
                    &&& doc_tree(d) == sequence_tree(text_trees::<A>(text_to_pieces(payload@)))
                },
                Err(ContainsTab::ContainsTab(i, s)) => first_tab(payload.spec_bytes(), i as int) && s@ == payload@,
            },
    {
        Document::from_text(payload)
    }

    /// Flat text. The payload must hold neither a tab nor a newline sequence.
    pub fn flat_text(payload: &str) -> (r: Self)
        requires
            free_of_tabs(payload.spec_bytes()),
            free_of_linebreaks(payload.spec_bytes()),
        ensures
            doc_tree(r) == flat_tree::<A>(payload@),
    {
        match Document::flat_text(payload) {
            Ok(d) => d,
            Err(_) => {
                proof {
                    assert(false);
                }
                Document::nil()
            },
        }
    }

    /// Flat text.
    ///
    /// Fails when the payload is not a valid flat fragment.
    pub fn flat_text_(payload: &str) -> (r: Result<Self, FragmentError>)
        ensures
            match r {
                Ok(d) => {
                    &&& free_of_tabs(payload.spec_bytes())
                    &&& free_of_linebreaks(payload.spec_bytes())
                    &&& doc_tree(d) == flat_tree::<A>(payload@)
                },
                Err(e) => flat_fragment_outcome(payload@, Err(e)),
            },
    {
        Document::flat_text(payload)
    }

    /// A break node. The payloads must make one.
    pub fn breaker(flat: &str, broken: &str) -> (r: Self)
        requires
            break_accepts(flat@, broken@),
        ensures
            doc_tree(r) == DocTree::<A>::Break(flat@, text_to_pieces(broken@)),
    {
        match Document::breaker(flat, broken) {
            Ok(d) => d,
            Err(_) => {
                proof {
                    assert(false);
                }
                Document::nil()
            },
        }
    }

    /// A break node.
    ///
    /// Fails as `Break::new` does.
    pub fn breaker_(flat: &str, broken: &str) -> (r: Result<Self, BreakNodeInvalid>)
        ensures
            match r {
                Ok(d) => {
                    &&& break_accepts(flat@, broken@)
                    &&& doc_tree(d) == DocTree::<A>::Break(flat@, text_to_pieces(broken@))
                },
                Err(e) => break_refusal(flat@, broken@, e),
            },
    {
        Document::breaker(flat, broken)
    }

    /// A hard linebreak.
    pub fn hard_linebreak() -> (r: Self)
        ensures
            doc_tree(r) == DocTree::<A>::HardLinebreak,
    {
        Document::hard_linebreak()
    }

    /// A group with the given policy.
    pub fn group(child: Self, policy: GroupPolicy) -> (r: Self)
        ensures
            doc_tree(r) == DocTree::Group(policy, Box::new(doc_tree(child))),
    {
        Document::group(child, policy)
    }

    /// A group with the given policy.
    pub fn group_with(policy: GroupPolicy, child: Self) -> (r: Self)
        ensures
            doc_tree(r) == DocTree::Group(policy, Box::new(doc_tree(child))),
    {
        Document::group(child, policy)
    }

    /// A group, with the given policy, over exactly what `sequence` makes of
    /// the children.
    pub fn grouped_sequence(children: Vec<Self>, policy: GroupPolicy) -> (r: Self)
        requires
            seq_status_ok(trees_of(children@)),
        ensures
            doc_tree(r) == DocTree::Group(policy, Box::new(sequence_tree(trees_of(children@)))),
    {
        Document::grouped_sequence(children, policy)
    }

    /// A group, with the given policy, over exactly what `sequence` makes of
    /// the children.
    pub fn grouped_sequence_with(policy: GroupPolicy, children: Vec<Self>) -> (r: Self)
        requires
            seq_status_ok(trees_of(children@)),
        ensures
            doc_tree(r) == DocTree::Group(policy, Box::new(sequence_tree(trees_of(children@)))),
    {
        Document::grouped_sequence(children, policy)
    }

    /// A sequence of the children, as `sequence`, when its break status can
    /// be computed within `usize`; `None` when it cannot.
    pub fn try_sequence(children: Vec<Self>) -> (r: Option<Self>)
        ensures
            r is Some <==> seq_status_ok(trees_of(children@)),
            r matches Some(d) ==> doc_tree(d) == sequence_tree(trees_of(children@)),
    {
        Document::try_sequence(children)
    }

    /// Literal text, as `from_text_`, when the break status of the sequence
    /// of its pieces can be computed within `usize`; `None` when it cannot.
    pub fn try_from_text(payload: &str) -> (r: Option<Result<Self, ContainsTab>>)
        ensures
            r is None <==> (free_of_tabs(payload.spec_bytes()) && !seq_status_ok(
                text_trees::<A>(text_to_pieces(payload@)),
            )),
            r matches Some(Ok(d)) ==> {
                &&& free_of_tabs(payload.spec_bytes())
                &&& doc_tree(d) == sequence_tree(text_trees::<A>(text_to_pieces(payload@)))
            },
            r matches Some(Err(ContainsTab::ContainsTab(i, s))) ==> first_tab(payload.spec_bytes(), i as int)
                && s@ == payload@,
    {
        Document::try_from_text(payload)
    }

    /// A sequence of the children, without its nil children.
    pub fn sequence(children: Vec<Self>) -> (r: Self)
        requires
            seq_status_ok(trees_of(children@)),
        ensures
            doc_tree(r) == sequence_tree(trees_of(children@)),
    {
        Document::sequence(children)
    }

    /// A sequence of the children, other than the nil ones, with a copy of
    /// the separator between each two.
    pub fn sequence_intersperse_with(children: Vec<Self>, separator: Self) -> (r: Self) where
        A: Clone,
        requires
            doc_tree(separator) is Nil ==> seq_status_ok(trees_of(children@)),
            !(doc_tree(separator) is Nil) ==> seq_status_ok(
                intersperse(non_nil(trees_of(children@)), doc_tree(separator)),
            ),
        ensures
            doc_tree(separator) is Nil ==> doc_tree(r) == sequence_tree(trees_of(children@)),
            !(doc_tree(separator) is Nil) ==> exists|ys: Seq<DocTree<A>>|
                interspersed_copies(non_nil(trees_of(children@)), doc_tree(separator), ys)
                && doc_tree(r) == sequence_tree(ys),
    {
        Document::sequence_intersperse_with(children, separator)
    }

    /// A sequence of the children, as `sequence_intersperse_with`, when its
    /// break status can be computed within `usize`; `None` when it cannot.
    pub fn try_sequence_intersperse_with(children: Vec<Self>, separator: Self) -> (r: Option<Self>) where
        A: Clone,
        ensures
            doc_tree(separator) is Nil ==> (r is Some <==> seq_status_ok(trees_of(children@))),
            !(doc_tree(separator) is Nil) ==> (r is Some <==> seq_status_ok(
                intersperse(non_nil(trees_of(children@)), doc_tree(separator)),
            )),
            doc_tree(separator) is Nil ==> (r matches Some(d) ==> doc_tree(d) == sequence_tree(
                trees_of(children@),
            )),
            !(doc_tree(separator) is Nil) ==> (r matches Some(d) ==> exists|ys: Seq<DocTree<A>>|
                interspersed_copies(non_nil(trees_of(children@)), doc_tree(separator), ys)
                && doc_tree(d) == sequence_tree(ys)),
    {
        Document::try_sequence_intersperse_with(children, separator)
    }

    /// A nest of the given indentation around the child.
    pub fn nest(indentation: usize, inner: Self) -> (r: Self)
        ensures
            doc_tree(r) == (if doc_tree(inner) is Nil {
                DocTree::<A>::Nil
            } else {
                DocTree::Nest(indentation as nat, Box::new(doc_tree(inner)))
            }),
    {
        Document::nest(indentation, inner)
    }

    /// An annotation over the child.
    pub fn annotation(annotation: A, inner: Self) -> (r: Self)
        ensures
            doc_tree(r) == DocTree::Annotation(annotation, Box::new(doc_tree(inner))),
    {
        Document::annotation(annotation, inner)
    }
}

} // verus!
