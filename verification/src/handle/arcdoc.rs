//! `ArcDoc`: a document that shares its children through `Arc`, and
//! `ArcDocBuilder`, which shares equal leaves between the documents it builds.

use std::sync::Arc;

use vstd::prelude::*;
use vstd::string::*;
use vstd::cell::invcell::InvCell;
use vstd::predicate::Predicate;

use crate::document::{
    is_leaf_tree, lemma_status_ok, status_fits,
    any_observable, break_accepts, break_refusal, cloned_tree, cloned_seq, doc_tree, first_tab,
    flat_fragment_outcome, flat_len, flat_len_seq, flat_tree, free_of_tabs, intersperse,
    lemma_cloned_seq, lemma_non_nil, lemma_seq_status_ok_take, lemma_trees_of, lemma_trees_of_push,
    non_nil, node_tree, observable, reverse_vec, seq_status_ok, sequence_tree, status_ok,
    text_to_pieces, text_trees, trees_of, Break, BreakNodeInvalid, BreakStatus, ContainsTab,
    DocTree, Document, FlatFragment, FragmentError, GroupPolicy, Sequence,
};
use crate::handle::boxdoc::BoxDoc;
use crate::layout::{lemma_seq_size_each, seq_size, tree_size};
use crate::layout::{default_settings, layout_events, LayoutSettings};
use crate::lines::free_of_linebreaks;
use crate::properties::lemma_copy_lays_out_alike;
use crate::rebuild::{
    conversion_of, converted, converted_seq, lemma_cloned_nil, lemma_cloned_seq_of_each,
    lemma_cloned_sequence_tree, lemma_converted_seq, lemma_converted_seq_status,
    lemma_rebuilt_text, lemma_rebuilt_seq, lemma_rebuilt_seq_status, nest_tree, rebuilt,
    rebuilt_seq, Conversion,
};
use crate::renderer::{plaintext, render_model, RenderError};

verus! {

/// The document format that shares its children through `Arc`.
#[derive(Debug, PartialEq, Eq, Hash)]
pub struct ArcDoc<A = ()>(pub Arc<ArcNode<A>>);

/// A node of an `ArcDoc`, with the variants of `Document`.
#[derive(Debug, PartialEq, Eq, Hash)]
pub enum ArcNode<A = ()> {
    /// Displays as nothing.
    Nil,
    /// Text that is always displayed flat.
    Text(FlatFragment<'static>),
    /// Displayed by its flat or broken payload, following the layout mode.
    Break(Break<'static>),
    /// A newline that always appears.
    HardLinebreak,
    /// A layout decision point.
    Group(GroupPolicy, ArcDoc<A>),
    /// Children displayed one after another.
    Sequence(ArcSequence<A>),
    /// Adds indentation to the child's newlines when laid out broken.
    Nest(usize, ArcDoc<A>),
    /// An annotation over the child, passed on to renderers.
    Annotation(Box<A>, ArcDoc<A>),
}

/// A sequence of shared child documents, with its break status and
/// observability computed once, at construction.
#[derive(Debug, PartialEq, Eq, Hash)]
pub struct ArcSequence<A = ()> {
    children: Vec<ArcDoc<A>>,
    status: BreakStatus,
    layout_mode_observable: bool,
}

/// Makes another handle to the same node: calls `Arc::clone`, which the
/// documentation of `std` describes as making a new pointer to the same
/// allocation; the contract states that the value is the same.
#[verifier::external_body]
fn share<A>(doc: &ArcDoc<A>) -> (r: ArcDoc<A>)
    ensures
        r == *doc,
{
    ArcDoc(Arc::clone(&doc.0))
}

/// Takes the node out of its `Arc` when the handle is its only one: calls
/// `Arc::try_unwrap`, which the documentation of `std` describes as
/// returning the inner value when the `Arc` has exactly one strong
/// reference, and otherwise the same `Arc`. The contract states that either
/// result holds the same value; which one comes back depends on the other
/// handles alive, and is not stated.
#[verifier::external_body]
fn take_node<A>(doc: ArcDoc<A>) -> (r: Result<ArcNode<A>, ArcDoc<A>>)
    ensures
        match r {
            Ok(node) => node == *doc.0,
            Err(same) => same == doc,
        },
{
    match Arc::try_unwrap(doc.0) {
        Ok(node) => Ok(node),
        Err(shared) => Err(ArcDoc(shared)),
    }
}

/// The model of a shared document handle.
pub open spec fn arc_tree<A>(d: ArcDoc<A>) -> DocTree<A>
    decreases d,
{
    arc_node_tree(*d.0)
}

/// The model of a shared document node.
pub open spec fn arc_node_tree<A>(n: ArcNode<A>) -> DocTree<A>
    decreases n,
{
    match n {
        ArcNode::Nil => DocTree::Nil,
        ArcNode::Text(f) => DocTree::Text(f.view_chars()),
        ArcNode::Break(b) => DocTree::Break(b.flat_chars(), b.broken_pieces()),
        ArcNode::HardLinebreak => DocTree::HardLinebreak,
        ArcNode::Group(p, c) => DocTree::Group(p, Box::new(arc_tree(c))),
        ArcNode::Sequence(s) => DocTree::Sequence(s.children_trees()),
        ArcNode::Nest(k, c) => DocTree::Nest(k as nat, Box::new(arc_tree(c))),
        ArcNode::Annotation(a, c) => DocTree::Annotation(*a, Box::new(arc_tree(c))),
    }
}

/// The models of a sequence of shared document handles.
pub open spec fn arc_trees<A>(cs: Seq<ArcDoc<A>>) -> Seq<DocTree<A>>
    decreases cs,
{
    if cs.len() == 0 {
        seq![]
    } else {
        arc_trees(cs.subrange(0, cs.len() - 1)).push(arc_tree(cs[cs.len() - 1]))
    }
}

/// `arc_trees` maps each handle to its model.
pub proof fn lemma_arc_trees<A>(cs: Seq<ArcDoc<A>>)
    ensures
        arc_trees(cs).len() == cs.len(),
        forall|i: int| 0 <= i < cs.len() ==> #[trigger] arc_trees(cs)[i] == arc_tree(cs[i]),
    decreases cs.len(),
{
    if cs.len() > 0 {
        lemma_arc_trees(cs.subrange(0, cs.len() - 1));
    }
}

/// The models of a sequence of handles with one more at the end.
proof fn lemma_arc_trees_push<A>(cs: Seq<ArcDoc<A>>, c: ArcDoc<A>)
    ensures
        arc_trees(cs.push(c)) == arc_trees(cs).push(arc_tree(c)),
{
    assert(cs.push(c).subrange(0, cs.len() as int) =~= cs);
}

impl<A> ArcSequence<A> {
    #[verifier::type_invariant]
    spec fn inv(self) -> bool {
        &&& seq_status_ok(arc_trees(self.children@))
        &&& self.status.model() == flat_len_seq(arc_trees(self.children@))
        &&& self.layout_mode_observable == any_observable(arc_trees(self.children@))
    }

    /// The models of the children.
    pub closed spec fn children_trees(self) -> Seq<DocTree<A>>
        decreases self,
    {
        arc_trees(self.children@)
    }

    /// Builds a sequence of the children, computing its break status and
    /// observability once.
    pub fn new(children: Vec<ArcDoc<A>>) -> (r: ArcSequence<A>)
        requires
            seq_status_ok(arc_trees(children@)),
        ensures
            r.children_trees() == arc_trees(children@),
    {
        let ghost cs = arc_trees(children@);
        let mut status = BreakStatus::FlatLength(0);
        let mut observable = false;
        let n = children.len();
        let mut i: usize = 0;
        proof {
            lemma_arc_trees(children@);
            assert(cs.take(0) =~= Seq::<DocTree<A>>::empty());
        }
        while i < n
            invariant
                n == children@.len(),
                cs == arc_trees(children@),
                cs.len() == n,
                i <= n,
                seq_status_ok(cs),
                status.model() == flat_len_seq(cs.take(i as int)),
                observable == any_observable(cs.take(i as int)),
            decreases n - i,
        {
            proof {
                lemma_arc_trees(children@);
                lemma_seq_status_ok_take(cs, i + 1);
                assert(cs.take(i + 1).drop_last() =~= cs.take(i as int));
                assert(cs.take(i + 1).last() == cs[i as int]);
            }
            let child: &ArcNode<A> = &*children[i].0;
            status = status.add(child.break_status());
            observable = observable || child.layout_mode_observable(GroupPolicy::Normal);
            i = i + 1;
        }
        proof {
            assert(cs.take(n as int) =~= cs);
        }
        ArcSequence { children, status, layout_mode_observable: observable }
    }

    /// The children.
    pub fn children(&self) -> (r: &Vec<ArcDoc<A>>)
        ensures
            arc_trees(r@) == self.children_trees(),
    {
        &self.children
    }

    /// Consumes the sequence, returning its children.
    pub fn into_children(self) -> (r: Vec<ArcDoc<A>>)
        ensures
            arc_trees(r@) == self.children_trees(),
    {
        self.children
    }

    /// The break status computed at construction.
    pub fn status(&self) -> (r: BreakStatus)
        ensures
            r.model() == flat_len_seq(self.children_trees()),
            seq_status_ok(self.children_trees()),
    {
        proof {
            use_type_invariant(self);
        }
        self.status
    }

    /// The observability computed at construction.
    pub fn layout_mode_observable(&self) -> (r: bool)
        ensures
            r == any_observable(self.children_trees()),
    {
        proof {
            use_type_invariant(self);
        }
        self.layout_mode_observable
    }
}

impl<A> ArcNode<A> {
    /// Whether a change of layout mode is observable in this node under the
    /// given enclosing policy.
    pub fn layout_mode_observable(&self, policy: GroupPolicy) -> (r: bool)
        ensures
            r == observable(arc_node_tree(*self), policy),
        decreases *self,
    {
        match self {
            ArcNode::Break(_) => true,
            ArcNode::Nil => false,
            ArcNode::Text(_) => false,
            ArcNode::HardLinebreak => false,
            ArcNode::Group(inner, child) => {
                if matches!(policy, GroupPolicy::FlatIfPossible) && matches!(inner, GroupPolicy::Normal) {
                    child.0.layout_mode_observable(GroupPolicy::FlatIfPossible)
                } else {
                    false
                }
            },
            ArcNode::Nest(_, child) => child.0.layout_mode_observable(policy),
            ArcNode::Annotation(_, child) => child.0.layout_mode_observable(policy),
            ArcNode::Sequence(sequence) => sequence.layout_mode_observable(),
        }
    }

    /// The break status of this node.
    pub fn break_status(&self) -> (r: BreakStatus)
        ensures
            r.model() == flat_len(arc_node_tree(*self)),
        decreases *self,
    {
        match self {
            ArcNode::Nil => BreakStatus::FlatLength(0),
            ArcNode::Text(fragment) => BreakStatus::FlatLength(fragment.unicode_width()),
            ArcNode::Break(inner) => BreakStatus::FlatLength(inner.flat().unicode_width()),
            ArcNode::HardLinebreak => BreakStatus::MustBreak,
            ArcNode::Group(policy, child) => {
                if matches!(policy, GroupPolicy::ForceBreak) && child.0.layout_mode_observable(
                    GroupPolicy::ForceBreak,
                ) {
                    BreakStatus::MustBreak
                } else {
                    child.0.break_status()
                }
            },
            ArcNode::Sequence(sequence) => sequence.status(),
            ArcNode::Nest(_, child) => child.0.break_status(),
            ArcNode::Annotation(_, child) => child.0.break_status(),
        }
    }
}

impl<A> Clone for ArcDoc<A> {
    /// Another handle to the same document.
    fn clone(&self) -> (r: Self)
        ensures
            r == *self,
    {
        share(self)
    }
}

impl<A> ArcDoc<A> {
    /// A handle to the node.
    fn from_node(node: ArcNode<A>) -> (r: Self)
        ensures
            arc_tree(r) == arc_node_tree(node),
    {
        ArcDoc(Arc::new(node))
    }

    /// The shared document of the same nodes as a boxed one, moving its
    /// contents.
    pub(crate) fn from_box(doc: BoxDoc<A>) -> (r: Self)
        ensures
            arc_tree(r) == doc_tree(doc),
        decreases tree_size(doc_tree(doc)),
    {
        let ghost t = doc_tree(doc);
        let node = match *doc.0 {
            Document::Nil => ArcNode::Nil,
            Document::Text(fragment) => ArcNode::Text(fragment),
            Document::Break(breaker) => ArcNode::Break(breaker),
            Document::HardLinebreak => ArcNode::HardLinebreak,
            Document::Group(policy, child) => ArcNode::Group(policy, Self::from_box(child)),
            Document::Sequence(sequence) => {
                let status = sequence.status();
                let observable = sequence.layout_mode_observable();
                let ghost cs = sequence.children_trees();
                let children = sequence.into_children();
                let ghost orig = children@;
                let n = children.len();
                let mut reversed = reverse_vec(children);
                let mut converted: Vec<ArcDoc<A>> = Vec::new();
                proof {
                    lemma_trees_of(orig);
                    lemma_seq_size_each(cs);
                    assert(arc_trees(converted@) =~= cs.take(0));
                }
                while reversed.len() > 0
                    invariant
                        n == orig.len(),
                        cs == trees_of(orig),
                        cs.len() == n,
                        t == DocTree::<A>::Sequence(cs),
                        t == doc_tree(doc),
                        tree_size(t) == 1 + seq_size(cs),
                        forall|i: int| 0 <= i < n ==> tree_size(#[trigger] cs[i]) <= seq_size(cs),
                        reversed@.len() <= n,
                        forall|k: int| 0 <= k < reversed@.len() ==> #[trigger] reversed@[k] == orig[n - 1 - k],
                        arc_trees(converted@) == cs.take(n - reversed@.len()),
                    decreases reversed@.len(),
                {
                    let ghost j = n - reversed@.len();
                    let c = reversed.pop().unwrap();
                    proof {
                        lemma_trees_of(orig);
                        assert(doc_tree(c) == cs[j]);
                        assert(tree_size(doc_tree(c)) < tree_size(doc_tree(doc)));
                    }
                    let a = Self::from_box(c);
                    proof {
                        lemma_arc_trees_push(converted@, a);
                        assert(cs.take(j + 1) =~= cs.take(j).push(cs[j]));
                    }
                    converted.push(a);
                }
                proof {
                    assert(cs.take(n as int) =~= cs);
                }
                ArcNode::Sequence(ArcSequence { children: converted, status, layout_mode_observable: observable })
            },
            Document::Nest(indentation, child) => ArcNode::Nest(indentation, Self::from_box(child)),
            Document::Annotation(annotation, child) => ArcNode::Annotation(annotation, Self::from_box(child)),
        };
        Self::from_node(node)
    }

    /// The nil node.
    pub fn nil() -> (r: Self)
        ensures
            arc_tree(r) == DocTree::<A>::Nil,
    {
        Self::from_node(ArcNode::Nil)
    }

    /// Literal text, split along its newline sequences. The text must hold
    /// no tab.
    pub fn from_text(payload: &str) -> (r: Self)
        requires
            free_of_tabs(payload.spec_bytes()),
            seq_status_ok(text_trees::<A>(text_to_pieces(payload@))),
        ensures
            arc_tree(r) == sequence_tree(text_trees::<A>(text_to_pieces(payload@))),
    {
        Self::from_box(BoxDoc::from_text(payload))
    }

    /// Literal text, split along its newline sequences.
    ///
    /// Fails when the text holds a tab, reporting the first.
    pub fn from_text_(payload: &str) -> (r: Result<Self, ContainsTab>)
        requires
            free_of_tabs(payload.spec_bytes()) ==> seq_status_ok(text_trees::<A>(text_to_pieces(payload@))),
        ensures
            match r {
                Ok(d) => {
                    &&& free_of_tabs(payload.spec_bytes())
                    &&& arc_tree(d) == sequence_tree(text_trees::<A>(text_to_pieces(payload@)))
                },
                Err(ContainsTab::ContainsTab(i, s)) => first_tab(payload.spec_bytes(), i as int) && s@ == payload@,
            },
    {
        match Document::from_text(payload) {
            Ok(d) => Ok(Self::from_box(d)),
            Err(e) => Err(e),
        }
    }

    /// Flat text. The payload must hold neither a tab nor a newline sequence.
    pub fn flat_text(payload: &str) -> (r: Self)
        requires
            free_of_tabs(payload.spec_bytes()),
            free_of_linebreaks(payload.spec_bytes()),
        ensures
            arc_tree(r) == flat_tree::<A>(payload@),
    {
        Self::from_box(BoxDoc::flat_text(payload))
    }

    /// Flat text.
    ///
    /// Fails when the payload is not a valid flat fragment.
    pub fn flat_text_(payload: &str) -> (r: Result<Self, FragmentError>)
        ensures
            match r {
                Ok(d) => {
                    &&& free_of_tabs(payload.spec_bytes())
                    &&& free_of_linebreaks(payload.spec_bytes())
                    &&& arc_tree(d) == flat_tree::<A>(payload@)
                },
                Err(e) => flat_fragment_outcome(payload@, Err(e)),
            },
    {
        match Document::flat_text(payload) {
            Ok(d) => Ok(Self::from_box(d)),
            Err(e) => Err(e),
        }
    }

    /// A break node. The payloads must make one.
    pub fn breaker(flat: &str, broken: &str) -> (r: Self)
        requires
            break_accepts(flat@, broken@),
        ensures
            arc_tree(r) == DocTree::<A>::Break(flat@, text_to_pieces(broken@)),
    {
        Self::from_box(BoxDoc::breaker(flat, broken))
    }

    /// A break node.
    ///
    /// Fails as `Break::new` does.
    pub fn breaker_(flat: &str, broken: &str) -> (r: Result<Self, BreakNodeInvalid>)
        ensures
            match r {
                Ok(d) => {
                    &&& break_accepts(flat@, broken@)
                    &&& arc_tree(d) == DocTree::<A>::Break(flat@, text_to_pieces(broken@))
                },
                Err(e) => break_refusal(flat@, broken@, e),
            },
    {
        match Document::breaker(flat, broken) {
            Ok(d) => Ok(Self::from_box(d)),
            Err(e) => Err(e),
        }
    }

    /// A hard linebreak.
    pub fn hard_linebreak() -> (r: Self)
        ensures
            arc_tree(r) == DocTree::<A>::HardLinebreak,
    {
        Self::from_node(ArcNode::HardLinebreak)
    }

    /// A group with the default policy.
    pub fn group(child: Self) -> (r: Self)
        ensures
            arc_tree(r) == DocTree::Group(GroupPolicy::Normal, Box::new(arc_tree(child))),
    {
        Self::from_node(ArcNode::Group(GroupPolicy::Normal, child))
    }

    /// A group with the given policy.
    pub fn group_with(policy: GroupPolicy, child: Self) -> (r: Self)
        ensures
            arc_tree(r) == DocTree::Group(policy, Box::new(arc_tree(child))),
    {
        Self::from_node(ArcNode::Group(policy, child))
    }

    /// A group, with the default policy, over exactly what `sequence` makes
    /// of the children.
    pub fn grouped_sequence(children: Vec<Self>) -> (r: Self)
        requires
            seq_status_ok(arc_trees(children@)),
        ensures
            arc_tree(r) == DocTree::Group(GroupPolicy::Normal, Box::new(sequence_tree(arc_trees(children@)))),
    {
        Self::group(Self::sequence(children))
    }

    /// A group, with the given policy, over exactly what `sequence` makes of
    /// the children.
    pub fn grouped_sequence_with(policy: GroupPolicy, children: Vec<Self>) -> (r: Self)
        requires
            seq_status_ok(arc_trees(children@)),
        ensures
            arc_tree(r) == DocTree::Group(policy, Box::new(sequence_tree(arc_trees(children@)))),
    {
        Self::group_with(policy, Self::sequence(children))
    }

    /// The children without the nil ones, in order.
    fn drop_nil(children: Vec<Self>) -> (r: Vec<Self>)
        ensures
            arc_trees(r@) == non_nil(arc_trees(children@)),
    {
        let ghost orig = children@;
        let ghost cs = arc_trees(orig);
        let n = children.len();
        let mut reversed = reverse_vec(children);
        let mut kept: Vec<Self> = Vec::new();
        proof {
            lemma_arc_trees(orig);
            assert(cs.take(0) =~= Seq::<DocTree<A>>::empty());
            assert(arc_trees(kept@) == Seq::<DocTree<A>>::empty());
        }
        while reversed.len() > 0
            invariant
                n == orig.len(),
                cs == arc_trees(orig),
                cs.len() == n,
                reversed@.len() <= n,
                forall|k: int| 0 <= k < reversed@.len() ==> #[trigger] reversed@[k] == orig[n - 1 - k],
                arc_trees(kept@) == non_nil(cs.take(n - reversed@.len())),
            decreases reversed@.len(),
        {
            let ghost j = n - reversed@.len();
            let c = reversed.pop().unwrap();
            proof {
                lemma_arc_trees(orig);
                assert(c == orig[j]);
                assert(arc_tree(c) == cs[j]);
                assert(cs.take(j + 1).drop_last() =~= cs.take(j));
                assert(cs.take(j + 1).last() == cs[j]);
                lemma_arc_trees_push(kept@, c);
            }
            if !matches!(*c.0, ArcNode::Nil) {
                kept.push(c);
            }
        }
        proof {
            assert(cs.take(n as int) =~= cs);
        }
        kept
    }

    /// Whether the break status of a sequence of the children can be
    /// computed within `usize`: whether the flat lengths of the children add
    /// up, child after child, within `usize`.
    pub fn sequence_fits(children: &Vec<ArcDoc<A>>) -> (r: bool)
        ensures
            r == seq_status_ok(arc_trees(children@)),
    {
        let ghost cs = arc_trees(children@);
        let n = children.len();
        let mut status = BreakStatus::FlatLength(0);
        let mut i: usize = 0;
        proof {
            lemma_arc_trees(children@);
            assert(cs.take(0) =~= Seq::<DocTree<A>>::empty());
        }
        while i < n
            invariant
                n == children@.len(),
                cs == arc_trees(children@),
                cs.len() == n,
                i <= n,
                seq_status_ok(cs.take(i as int)),
                status.model() == flat_len_seq(cs.take(i as int)),
            decreases n - i,
        {
            proof {
                lemma_arc_trees(children@);
                lemma_status_ok(cs[i as int]);
                assert(cs.take(i + 1).drop_last() =~= cs.take(i as int));
                assert(cs.take(i + 1).last() == cs[i as int]);
            }
            let child = children[i].0.break_status();
            match (status, child) {
                (BreakStatus::FlatLength(a), BreakStatus::FlatLength(b)) => {
                    match a.checked_add(b) {
                        Some(sum) => {
                            status = BreakStatus::FlatLength(sum);
                        },
                        None => {
                            proof {
                                assert(!status_fits(flat_len_seq(cs.take(i + 1))));
                                assert(!seq_status_ok(cs.take(i + 1)));
                                if seq_status_ok(cs) {
                                    lemma_seq_status_ok_take(cs, i + 1);
                                }
                            }
                            return false;
                        },
                    }
                },
                _ => {
                    status = BreakStatus::MustBreak;
                },
            }
            i = i + 1;
        }
        proof {
            assert(cs.take(n as int) =~= cs);
        }
        true
    }

    /// A sequence of the children, as `sequence`, when its break status can
    /// be computed within `usize`; `None` when it cannot.
    pub fn try_sequence(children: Vec<Self>) -> (r: Option<Self>)
        ensures
            r is Some <==> seq_status_ok(arc_trees(children@)),
            r matches Some(d) ==> arc_tree(d) == sequence_tree(arc_trees(children@)),
    {
        if Self::sequence_fits(&children) {
            Some(Self::sequence(children))
        } else {
            None
        }
    }

    /// A sequence of the children: nil children are dropped; with none
    /// left, the nil node; with one, that child.
    pub fn sequence(children: Vec<Self>) -> (r: Self)
        requires
            seq_status_ok(arc_trees(children@)),
        ensures
            arc_tree(r) == sequence_tree(arc_trees(children@)),
    {
        let ghost cs = arc_trees(children@);
        let mut kept = Self::drop_nil(children);
        proof {
            lemma_non_nil(cs);
            lemma_arc_trees(kept@);
        }
        let k = kept.len();
        if k == 0 {
            Self::nil()
        } else if k == 1 {
            kept.pop().unwrap()
        } else {
            Self::from_node(ArcNode::Sequence(ArcSequence::new(kept)))
        }
    }

    /// A sequence of the children, other than the nil ones, with the
    /// separator shared between each two; with a nil separator, the sequence
    /// of the children.
    pub fn sequence_intersperse_with(children: Vec<Self>, separator: Self) -> (r: Self) where
        A: Clone,
        requires
            arc_tree(separator) is Nil ==> seq_status_ok(arc_trees(children@)),
            !(arc_tree(separator) is Nil) ==> seq_status_ok(
                intersperse(non_nil(arc_trees(children@)), arc_tree(separator)),
            ),
        ensures
            arc_tree(separator) is Nil ==> arc_tree(r) == sequence_tree(arc_trees(children@)),
            !(arc_tree(separator) is Nil) ==> arc_tree(r) == sequence_tree(
                intersperse(non_nil(arc_trees(children@)), arc_tree(separator)),
            ),
    {
        if matches!(*separator.0, ArcNode::Nil) {
            return Self::sequence(children);
        }
        let out = Self::interspersed(children, &separator);
        Self::sequence(out)
    }

    /// A sequence of the children, as `sequence_intersperse_with`, when its
    /// break status can be computed within `usize`; `None` when it cannot.
    pub fn try_sequence_intersperse_with(children: Vec<Self>, separator: Self) -> (r: Option<Self>) where
        A: Clone,
        ensures
            arc_tree(separator) is Nil ==> (r is Some <==> seq_status_ok(arc_trees(children@))),
            !(arc_tree(separator) is Nil) ==> (r is Some <==> seq_status_ok(
                intersperse(non_nil(arc_trees(children@)), arc_tree(separator)),
            )),
            arc_tree(separator) is Nil ==> (r matches Some(d) ==> arc_tree(d) == sequence_tree(
                arc_trees(children@),
            )),
            !(arc_tree(separator) is Nil) ==> (r matches Some(d) ==> arc_tree(d) == sequence_tree(
                intersperse(non_nil(arc_trees(children@)), arc_tree(separator)),
            )),
    {
        if matches!(*separator.0, ArcNode::Nil) {
            return Self::try_sequence(children);
        }
        let out = Self::interspersed(children, &separator);
        if Self::sequence_fits(&out) {
            Some(Self::sequence(out))
        } else {
            None
        }
    }

    /// The children other than the nil ones, with the separator shared
    /// between each two.
    fn interspersed(children: Vec<Self>, separator: &Self) -> (out: Vec<Self>)
        ensures
            arc_trees(out@) == intersperse(non_nil(arc_trees(children@)), arc_tree(*separator)),
    {
        let ghost sep = arc_tree(*separator);
        let ghost sep = arc_tree(*separator);
        let kept = Self::drop_nil(children);
        let ghost ks = arc_trees(kept@);
        let n = kept.len();
        let mut reversed = reverse_vec(kept);
        let mut out: Vec<Self> = Vec::new();
        proof {
            lemma_arc_trees(kept@);
        }
        while reversed.len() > 0
            invariant
                n == ks.len(),
                reversed@.len() <= n,
                sep == arc_tree(*separator),
                forall|k: int| 0 <= k < reversed@.len() ==> arc_tree(#[trigger] reversed@[k]) == ks[n - 1 - k],
                out@.len() == (if reversed@.len() == n { 0 } else { 2 * (n - reversed@.len()) - 1 }),
                forall|i: int| 0 <= i < out@.len() ==> arc_tree(#[trigger] out@[i]) == (if i % 2 == 0 {
                    ks[i / 2]
                } else {
                    sep
                }),
            decreases reversed@.len(),
        {
            let ghost before = out@;
            let c = reversed.pop().unwrap();
            if out.len() == 0 {
                out.push(c);
            } else {
                let copy = separator.clone();
                out.push(copy);
                out.push(c);
            }
            proof {
                assert forall|i: int| 0 <= i < out@.len() implies arc_tree(#[trigger] out@[i]) == (if i % 2 == 0 {
                    ks[i / 2]
                } else {
                    sep
                }) by {
                    if i < before.len() {
                        assert(out@[i] == before[i]);
                    }
                }
            }
        }
        proof {
            lemma_arc_trees(out@);
            assert(arc_trees(out@) =~= intersperse(ks, sep));
        }
        out
    }

    /// A nest of the given indentation around the child; a nil child gives
    /// the nil node.
    pub fn nest(indentation: usize, inner: Self) -> (r: Self)
        ensures
            arc_tree(r) == (if arc_tree(inner) is Nil {
                DocTree::<A>::Nil
            } else {
                DocTree::Nest(indentation as nat, Box::new(arc_tree(inner)))
            }),
    {
        if matches!(*inner.0, ArcNode::Nil) {
            Self::nil()
        } else {
            Self::from_node(ArcNode::Nest(indentation, inner))
        }
    }

    /// An annotation over the child.
    pub fn annotation(annotation: A, inner: Self) -> (r: Self)
        ensures
            arc_tree(r) == DocTree::Annotation(annotation, Box::new(arc_tree(inner))),
    {
        Self::from_node(ArcNode::Annotation(Box::new(annotation), inner))
    }
}

impl<A: Clone> ArcDoc<A> {
    /// Renders the document as plain text with the default settings.
    pub fn to_plaintext(&self) -> (r: Result<String, RenderError>)
        ensures
            render_model(r) == plaintext(layout_events(arc_tree(*self), default_settings())),
    {
        self.to_plaintext_with(LayoutSettings::default())
    }

    /// Renders the document as plain text with the given settings: the text
    /// of its layout, or the first layout error.
    pub fn to_plaintext_with(&self, settings: LayoutSettings) -> (r: Result<String, RenderError>)
        ensures
            render_model(r) == plaintext(layout_events(arc_tree(*self), settings)),
    {
        let boxed = self.to_box();
        proof {
            lemma_copy_lays_out_alike(arc_tree(*self), doc_tree(boxed), settings);
        }
        boxed.to_plaintext_with(settings)
    }

    /// A boxed copy of the document; annotations are cloned.
    pub fn to_box(&self) -> (r: BoxDoc<A>)
        ensures
            cloned_tree(arc_tree(*self), doc_tree(r)),
        decreases tree_size(arc_tree(*self)),
    {
        let ghost t = arc_tree(*self);
        let node: Document<A> = match &*self.0 {
            ArcNode::Nil => Document::Nil,
            ArcNode::Text(fragment) => Document::Text(fragment.clone()),
            ArcNode::Break(breaker) => Document::Break(breaker.clone()),
            ArcNode::HardLinebreak => Document::HardLinebreak,
            ArcNode::Group(policy, child) => Document::Group(*policy, child.to_box()),
            ArcNode::Sequence(sequence) => {
                let _ = sequence.status();
                let children = sequence.children();
                let ghost cs = arc_trees(children@);
                let n = children.len();
                let mut converted: Vec<BoxDoc<A>> = Vec::new();
                let mut i: usize = 0;
                proof {
                    lemma_arc_trees(children@);
                    lemma_seq_size_each(cs);
                    assert(cs.take(0) =~= Seq::<DocTree<A>>::empty());
                }
                while i < n
                    invariant
                        n == children@.len(),
                        cs == arc_trees(children@),
                        cs.len() == n,
                        t == DocTree::<A>::Sequence(cs),
                        t == arc_tree(*self),
                        tree_size(t) == 1 + seq_size(cs),
                        forall|k: int| 0 <= k < n ==> tree_size(#[trigger] cs[k]) <= seq_size(cs),
                        i <= n,
                        cloned_seq(cs.take(i as int), trees_of(converted@)),
                    decreases n - i,
                {
                    proof {
                        lemma_arc_trees(children@);
                        assert(arc_tree(children@[i as int]) == cs[i as int]);
                        assert(tree_size(cs[i as int]) <= seq_size(cs));
                        assert(tree_size(arc_tree(children@[i as int])) < tree_size(arc_tree(*self)));
                    }
                    let copy = children[i].to_box();
                    proof {
                        lemma_trees_of_push(converted@, copy);
                        let ys = trees_of(converted@);
                        assert(cs.take(i + 1).subrange(0, i as int) =~= cs.take(i as int));
                        assert(ys.push(doc_tree(copy)).subrange(0, i as int) =~= ys);
                    }
                    converted.push(copy);
                    i = i + 1;
                }
                proof {
                    assert(cs.take(n as int) =~= cs);
                    lemma_cloned_seq(cs, trees_of(converted@));
                }
                Document::Sequence(Sequence::new(converted))
            },
            ArcNode::Nest(indentation, child) => Document::Nest(*indentation, child.to_box()),
            ArcNode::Annotation(annotation, child) => {
                let a: A = (**annotation).clone();
                Document::Annotation(Box::new(a), child.to_box())
            },
        };
        BoxDoc(Box::new(node))
    }

    /// A boxed document equivalent to this one: each node held by this
    /// handle alone is moved out of and rebuilt through the smart
    /// constructors of `BoxDoc` from its converted children; a node shared
    /// with other handles is copied whole, cloning its annotations.
    pub fn into_box(self) -> (r: BoxDoc<A>)
        ensures
            conversion_of(arc_tree(self), doc_tree(r)),
        decreases tree_size(arc_tree(self)),
    {
        let ghost t = arc_tree(self);
        let node = match take_node(self) {
            Err(shared) => {
                let r = shared.to_box();
                proof {
                    assert(cloned_tree(converted(t, Conversion::Whole), doc_tree(r)));
                }
                return r;
            },
            Ok(node) => node,
        };
        match node {
            ArcNode::Nil => {
                let r = BoxDoc::nil();
                proof {
                    assert(cloned_tree(converted(t, Conversion::Whole), doc_tree(r)));
                }
                r
            },
            ArcNode::Text(fragment) => {
                let r = BoxDoc(Box::new(Document::Text(fragment)));
                proof {
                    assert(cloned_tree(converted(t, Conversion::Whole), doc_tree(r)));
                }
                r
            },
            ArcNode::Break(breaker) => {
                let r = BoxDoc(Box::new(Document::Break(breaker)));
                proof {
                    assert(cloned_tree(converted(t, Conversion::Whole), doc_tree(r)));
                }
                r
            },
            ArcNode::HardLinebreak => {
                let r = BoxDoc::hard_linebreak();
                proof {
                    assert(cloned_tree(converted(t, Conversion::Whole), doc_tree(r)));
                }
                r
            },
            ArcNode::Group(policy, child) => {
                let ghost ct = arc_tree(child);
                let c = child.into_box();
                let r = BoxDoc::group_with(policy, c);
                proof {
                    let ch = choose|ch: Conversion| #[trigger] cloned_tree(converted(ct, ch), doc_tree(c));
                    let top = Conversion::Rebuilt(seq![ch]);
                    assert(converted(t, top) == DocTree::Group(policy, Box::new(converted(ct, ch))));
                    assert(cloned_tree(converted(t, top), doc_tree(r)));
                }
                r
            },
            ArcNode::Nest(indentation, child) => {
                let ghost ct = arc_tree(child);
                let c = child.into_box();
                let r = BoxDoc::nest(indentation, c);
                proof {
                    let ch = choose|ch: Conversion| #[trigger] cloned_tree(converted(ct, ch), doc_tree(c));
                    let top = Conversion::Rebuilt(seq![ch]);
                    assert(converted(t, top) == nest_tree(indentation as nat, converted(ct, ch)));
                    lemma_cloned_nil(converted(ct, ch), doc_tree(c));
                    assert(cloned_tree(converted(t, top), doc_tree(r)));
                }
                r
            },
            ArcNode::Annotation(annotation, child) => {
                let ghost ct = arc_tree(child);
                let ghost a = *annotation;
                let c = child.into_box();
                let r = BoxDoc::annotation(*annotation, c);
                proof {
                    let ch = choose|ch: Conversion| #[trigger] cloned_tree(converted(ct, ch), doc_tree(c));
                    let top = Conversion::Rebuilt(seq![ch]);
                    assert(converted(t, top) == DocTree::Annotation(a, Box::new(converted(ct, ch))));
                    assert(cloned_tree(converted(t, top), doc_tree(r)));
                }
                r
            },
            ArcNode::Sequence(sequence) => {
                let _ = sequence.status();
                let ghost cs = sequence.children_trees();
                let children = sequence.into_children();
                let ghost orig = children@;
                let n = children.len();
                let mut reversed = reverse_vec(children);
                let mut converted_children: Vec<BoxDoc<A>> = Vec::new();
                let ghost mut chs: Seq<Conversion> = seq![];
                proof {
                    lemma_arc_trees(orig);
                    lemma_seq_size_each(cs);
                }
                while reversed.len() > 0
                    invariant
                        n == orig.len(),
                        cs == arc_trees(orig),
                        cs.len() == n,
                        t == DocTree::<A>::Sequence(cs),
                        t == arc_tree(self),
                        tree_size(t) == 1 + seq_size(cs),
                        forall|k: int| 0 <= k < n ==> tree_size(#[trigger] cs[k]) <= seq_size(cs),
                        reversed@.len() <= n,
                        forall|k: int| 0 <= k < reversed@.len() ==> #[trigger] reversed@[k] == orig[n - 1 - k],
                        chs.len() == n - reversed@.len(),
                        trees_of(converted_children@).len() == chs.len(),
                        forall|k: int| 0 <= k < chs.len() ==> #[trigger] cloned_tree(
                            converted(cs[k], chs[k]),
                            trees_of(converted_children@)[k],
                        ),
                    decreases reversed@.len(),
                {
                    let ghost j = n - reversed@.len();
                    let c = reversed.pop().unwrap();
                    proof {
                        lemma_arc_trees(orig);
                        assert(arc_tree(c) == cs[j]);
                        assert(tree_size(arc_tree(c)) < tree_size(t));
                    }
                    let copy = c.into_box();
                    proof {
                        let ch = choose|ch: Conversion| #[trigger] cloned_tree(converted(cs[j], ch), doc_tree(copy));
                        lemma_trees_of_push(converted_children@, copy);
                        let old_chs = chs;
                        chs = chs.push(ch);
                        let ys = trees_of(converted_children@);
                        assert forall|k: int| 0 <= k < chs.len() implies #[trigger] cloned_tree(
                            converted(cs[k], chs[k]),
                            ys.push(doc_tree(copy))[k],
                        ) by {
                            if k < j {
                                assert(chs[k] == old_chs[k]);
                                assert(ys.push(doc_tree(copy))[k] == ys[k]);
                            }
                        }
                    }
                    converted_children.push(copy);
                }
                proof {
                    let ys = trees_of(converted_children@);
                    let xs = converted_seq(cs, chs);
                    lemma_converted_seq(cs, chs);
                    assert forall|k: int| 0 <= k < xs.len() implies #[trigger] cloned_tree(xs[k], ys[k]) by {
                        assert(xs[k] == converted(cs[k], chs[k]));
                    }
                    lemma_cloned_seq_of_each(xs, ys);
                    lemma_converted_seq_status(cs, chs);
                    lemma_cloned_seq(xs, ys);
                    lemma_cloned_sequence_tree(xs, ys);
                    assert(converted(t, Conversion::Rebuilt(chs)) == sequence_tree(xs));
                }
                let r = BoxDoc::sequence(converted_children);
                proof {
                    assert(cloned_tree(converted(t, Conversion::Rebuilt(chs)), doc_tree(r)));
                }
                r
            },
        }
    }
}

/// Whether two nodes are equal leaves (nil, flat text, break or hard
/// linebreak nodes with the same payloads).
fn same_leaf<A>(a: &ArcNode<A>, b: &ArcNode<A>) -> (r: bool)
    ensures
        r == (is_leaf_tree(arc_node_tree(*a)) && arc_node_tree(*a) == arc_node_tree(*b)),
{
    match (a, b) {
        (ArcNode::Nil, ArcNode::Nil) => true,
        (ArcNode::HardLinebreak, ArcNode::HardLinebreak) => true,
        (ArcNode::Text(x), ArcNode::Text(y)) => x.same_text(y),
        (ArcNode::Break(x), ArcNode::Break(y)) => x.same_payloads(y),
        _ => false,
    }
}

/// Whether the node is a leaf: nil, flat text, break or hard linebreak.
fn is_leaf<A>(node: &ArcNode<A>) -> (r: bool)
    ensures
        r == is_leaf_tree(arc_node_tree(*node)),
{
    match node {
        ArcNode::Nil | ArcNode::Text(_) | ArcNode::Break(_) | ArcNode::HardLinebreak => true,
        _ => false,
    }
}

/// The interned leaves of a builder: each is a leaf, and no two are equal.
pub struct InternedLeaves;

/// Every document of the list is a leaf, and no two are equal.
pub open spec fn distinct_leaves<A>(ts: Seq<DocTree<A>>) -> bool {
    &&& forall|i: int| 0 <= i < ts.len() ==> is_leaf_tree(#[trigger] ts[i])
    &&& forall|i: int, j: int| 0 <= i < j < ts.len() ==> #[trigger] ts[i] != #[trigger] ts[j]
}

impl<A> Predicate<Vec<ArcDoc<A>>> for InternedLeaves {
    open spec fn predicate(&self, v: Vec<ArcDoc<A>>) -> bool {
        distinct_leaves(arc_trees(v@))
    }
}

/// The builder of shared documents: the leaf nodes it allocates are shared
/// between the documents it builds, so that equal leaves are allocated once.
pub struct ArcDocBuilder<A = ()> {
    intern: InvCell<Vec<ArcDoc<A>>, InternedLeaves>,
}

impl<A> ArcDocBuilder<A> {
    /// A builder that has interned nothing yet.
    fn empty() -> (r: Self) {
        ArcDocBuilder { intern: InvCell::new(Vec::new(), Ghost(InternedLeaves)) }
    }

    /// A builder that has interned nothing yet.
    pub fn new() -> (r: Self) where A: Default {
        Self::empty()
    }

    /// Allocates a node; a leaf equal to one allocated before is shared with
    /// it.
    pub fn allocate(&self, doc: ArcNode<A>) -> (r: ArcDoc<A>)
        ensures
            arc_tree(r) == arc_node_tree(doc),
    {
        if !is_leaf(&doc) {
            return ArcDoc::from_node(doc);
        }
        let fresh: Vec<ArcDoc<A>> = Vec::new();
        proof {
            assert(arc_trees(fresh@) =~= Seq::<DocTree<A>>::empty());
        }
        let cache = self.intern.replace(fresh);
        let ghost ts = arc_trees(cache@);
        let n = cache.len();
        let mut i: usize = 0;
        proof {
            lemma_arc_trees(cache@);
        }
        while i < n
            invariant
                n == cache@.len(),
                i <= n,
                ts == arc_trees(cache@),
                ts.len() == n,
                self.intern.inv(cache),
                distinct_leaves(ts),
                forall|k: int| 0 <= k < cache@.len() ==> #[trigger] ts[k] == arc_tree(cache@[k]),
                forall|k: int| 0 <= k < i ==> #[trigger] ts[k] != arc_node_tree(doc),
            decreases n - i,
        {
            if same_leaf(&*cache[i].0, &doc) {
                let found = cache[i].clone();
                let _ = self.intern.replace(cache);
                return found;
            }
            i = i + 1;
        }
        let arc_doc = ArcDoc::from_node(doc);
        let mut cache = cache;
        let ghost before = cache@;
        cache.push(arc_doc.clone());
        proof {
            lemma_arc_trees_push(before, arc_doc);
            let us = arc_trees(cache@);
            assert(cache@ == before.push(arc_doc));
            assert(us == ts.push(arc_node_tree(doc)));
            assert forall|k: int| 0 <= k < us.len() implies is_leaf_tree(#[trigger] us[k]) by {
                if k < n {
                    assert(us[k] == ts[k]);
                }
            }
            assert forall|k: int, j: int| 0 <= k < j < us.len() implies #[trigger] us[k] != #[trigger] us[j] by {
                assert(us[k] == ts[k]);
                if j < n {
                    assert(us[j] == ts[j]);
                }
            }
        }
        let _ = self.intern.replace(cache);
        arc_doc
    }

    /// The nil node, shared.
    pub fn nil(&self) -> (r: ArcDoc<A>)
        ensures
            arc_tree(r) == DocTree::<A>::Nil,
    {
        self.allocate(ArcNode::Nil)
    }

    /// Literal text, split along its newline sequences, with its leaves
    /// shared. The text must hold no tab.
    pub fn from_text(&self, payload: &str) -> (r: ArcDoc<A>)
        requires
            free_of_tabs(payload.spec_bytes()),
            seq_status_ok(text_trees::<A>(text_to_pieces(payload@))),
        ensures
            arc_tree(r) == sequence_tree(text_trees::<A>(text_to_pieces(payload@))),
    {
        proof {
            lemma_rebuilt_text::<A>(text_to_pieces(payload@));
        }
        BoxDoc::from_text(payload).into_arc_with(self)
    }

    /// Literal text, split along its newline sequences, with its leaves
    /// shared.
    ///
    /// Fails when the text holds a tab, reporting the first.
    pub fn from_text_(&self, payload: &str) -> (r: Result<ArcDoc<A>, ContainsTab>)
        requires
            free_of_tabs(payload.spec_bytes()) ==> seq_status_ok(text_trees::<A>(text_to_pieces(payload@))),
        ensures
            match r {
                Ok(d) => {
                    &&& free_of_tabs(payload.spec_bytes())
                    &&& arc_tree(d) == sequence_tree(text_trees::<A>(text_to_pieces(payload@)))
                },
                Err(ContainsTab::ContainsTab(i, s)) => first_tab(payload.spec_bytes(), i as int) && s@ == payload@,
            },
    {
        proof {
            lemma_rebuilt_text::<A>(text_to_pieces(payload@));
        }
        match Document::from_text(payload) {
            Ok(d) => Ok(d.into_arc_with(self)),
            Err(e) => Err(e),
        }
    }

    /// Flat text, shared. The payload must hold neither a tab nor a newline
    /// sequence.
    pub fn flat_text(&self, payload: &str) -> (r: ArcDoc<A>)
        requires
            free_of_tabs(payload.spec_bytes()),
            free_of_linebreaks(payload.spec_bytes()),
        ensures
            arc_tree(r) == flat_tree::<A>(payload@),
    {
        BoxDoc::flat_text(payload).into_arc_with(self)
    }

    /// Flat text, shared.
    ///
    /// Fails when the payload is not a valid flat fragment.
    pub fn flat_text_(&self, payload: &str) -> (r: Result<ArcDoc<A>, FragmentError>)
        ensures
            match r {
                Ok(d) => {
                    &&& free_of_tabs(payload.spec_bytes())
                    &&& free_of_linebreaks(payload.spec_bytes())
                    &&& arc_tree(d) == flat_tree::<A>(payload@)
                },
                Err(e) => flat_fragment_outcome(payload@, Err(e)),
            },
    {
        match Document::flat_text(payload) {
            Ok(d) => Ok(d.into_arc_with(self)),
            Err(e) => Err(e),
        }
    }

    /// A break node, shared. The payloads must make one.
    pub fn breaker(&self, flat: &str, broken: &str) -> (r: ArcDoc<A>)
        requires
            break_accepts(flat@, broken@),
        ensures
            arc_tree(r) == DocTree::<A>::Break(flat@, text_to_pieces(broken@)),
    {
        BoxDoc::breaker(flat, broken).into_arc_with(self)
    }

    /// A break node, shared.
    ///
    /// Fails as `Break::new` does.
    pub fn breaker_(&self, flat: &str, broken: &str) -> (r: Result<ArcDoc<A>, BreakNodeInvalid>)
        ensures
            match r {
                Ok(d) => {
                    &&& break_accepts(flat@, broken@)
                    &&& arc_tree(d) == DocTree::<A>::Break(flat@, text_to_pieces(broken@))
                },
                Err(e) => break_refusal(flat@, broken@, e),
            },
    {
        match Document::breaker(flat, broken) {
            Ok(d) => Ok(d.into_arc_with(self)),
            Err(e) => Err(e),
        }
    }

    /// A hard linebreak, shared.
    pub fn hard_linebreak(&self) -> (r: ArcDoc<A>)
        ensures
            arc_tree(r) == DocTree::<A>::HardLinebreak,
    {
        self.allocate(ArcNode::HardLinebreak)
    }

    /// A group with the default policy.
    pub fn group(&self, child: ArcDoc<A>) -> (r: ArcDoc<A>)
        ensures
            arc_tree(r) == DocTree::Group(GroupPolicy::Normal, Box::new(arc_tree(child))),
    {
        self.allocate(ArcNode::Group(GroupPolicy::Normal, child))
    }

    /// A group with the given policy.
    pub fn group_with(&self, policy: GroupPolicy, child: ArcDoc<A>) -> (r: ArcDoc<A>)
        ensures
            arc_tree(r) == DocTree::Group(policy, Box::new(arc_tree(child))),
    {
        self.allocate(ArcNode::Group(policy, child))
    }

    /// A group, with the default policy, over exactly what `sequence` makes
    /// of the children.
    pub fn grouped_sequence(&self, children: Vec<ArcDoc<A>>) -> (r: ArcDoc<A>)
        requires
            seq_status_ok(arc_trees(children@)),
        ensures
            arc_tree(r) == DocTree::Group(GroupPolicy::Normal, Box::new(sequence_tree(arc_trees(children@)))),
    {
        let sequence = self.sequence(children);
        self.group(sequence)
    }

    /// A group, with the given policy, over exactly what `sequence` makes of
    /// the children.
    pub fn grouped_sequence_with(&self, policy: GroupPolicy, children: Vec<ArcDoc<A>>) -> (r: ArcDoc<A>)
        requires
            seq_status_ok(arc_trees(children@)),
        ensures
            arc_tree(r) == DocTree::Group(policy, Box::new(sequence_tree(arc_trees(children@)))),
    {
        let sequence = self.sequence(children);
        self.group_with(policy, sequence)
    }

    /// A sequence of the children, as `sequence`, when its break status can
    /// be computed within `usize`; `None` when it cannot.
    pub fn try_sequence(&self, children: Vec<ArcDoc<A>>) -> (r: Option<ArcDoc<A>>)
        ensures
            r is Some <==> seq_status_ok(arc_trees(children@)),
            r matches Some(d) ==> arc_tree(d) == sequence_tree(arc_trees(children@)),
    {
        if ArcDoc::sequence_fits(&children) {
            Some(self.sequence(children))
        } else {
            None
        }
    }

    /// Literal text, as `from_text_`, when the break status of the sequence
    /// of its pieces can be computed within `usize`; `None` when it cannot.
    pub fn try_from_text(&self, payload: &str) -> (r: Option<Result<ArcDoc<A>, ContainsTab>>)
        ensures
            r is None <==> (free_of_tabs(payload.spec_bytes()) && !seq_status_ok(
                text_trees::<A>(text_to_pieces(payload@)),
            )),
            r matches Some(Ok(d)) ==> {
                &&& free_of_tabs(payload.spec_bytes())
                &&& arc_tree(d) == sequence_tree(text_trees::<A>(text_to_pieces(payload@)))
            },
            r matches Some(Err(ContainsTab::ContainsTab(i, s))) ==> first_tab(payload.spec_bytes(), i as int)
                && s@ == payload@,
    {
        proof {
            lemma_rebuilt_text::<A>(text_to_pieces(payload@));
        }
        match Document::try_from_text(payload) {
            Some(Ok(d)) => Some(Ok(d.into_arc_with(self))),
            Some(Err(e)) => Some(Err(e)),
            None => None,
        }
    }

    /// A sequence of the children: nil children are dropped; with none
    /// left, the shared nil node; with one, that child.
    pub fn sequence(&self, children: Vec<ArcDoc<A>>) -> (r: ArcDoc<A>)
        requires
            seq_status_ok(arc_trees(children@)),
        ensures
            arc_tree(r) == sequence_tree(arc_trees(children@)),
    {
        let ghost cs = arc_trees(children@);
        let mut kept = ArcDoc::drop_nil(children);
        proof {
            lemma_non_nil(cs);
            lemma_arc_trees(kept@);
        }
        let k = kept.len();
        if k == 0 {
            self.nil()
        } else if k == 1 {
            kept.pop().unwrap()
        } else {
            self.allocate(ArcNode::Sequence(ArcSequence::new(kept)))
        }
    }

    /// A sequence of the children, other than the nil ones, with the
    /// separator shared between each two.
    pub fn sequence_intersperse_with(&self, children: Vec<ArcDoc<A>>, separator: ArcDoc<A>) -> (r: ArcDoc<A>) where
        A: Clone,
        requires
            arc_tree(separator) is Nil ==> seq_status_ok(arc_trees(children@)),
            !(arc_tree(separator) is Nil) ==> seq_status_ok(
                intersperse(non_nil(arc_trees(children@)), arc_tree(separator)),
            ),
        ensures
            arc_tree(separator) is Nil ==> arc_tree(r) == sequence_tree(arc_trees(children@)),
            !(arc_tree(separator) is Nil) ==> arc_tree(r) == sequence_tree(
                intersperse(non_nil(arc_trees(children@)), arc_tree(separator)),
            ),
    {
        ArcDoc::sequence_intersperse_with(children, separator)
    }

    /// A sequence of the children, as `sequence_intersperse_with`, when its
    /// break status can be computed within `usize`; `None` when it cannot.
    pub fn try_sequence_intersperse_with(&self, children: Vec<ArcDoc<A>>, separator: ArcDoc<A>) -> (r: Option<ArcDoc<A>>) where
        A: Clone,
        ensures
            arc_tree(separator) is Nil ==> (r is Some <==> seq_status_ok(arc_trees(children@))),
            !(arc_tree(separator) is Nil) ==> (r is Some <==> seq_status_ok(
                intersperse(non_nil(arc_trees(children@)), arc_tree(separator)),
            )),
            arc_tree(separator) is Nil ==> (r matches Some(d) ==> arc_tree(d) == sequence_tree(
                arc_trees(children@),
            )),
            !(arc_tree(separator) is Nil) ==> (r matches Some(d) ==> arc_tree(d) == sequence_tree(
                intersperse(non_nil(arc_trees(children@)), arc_tree(separator)),
            )),
    {
        ArcDoc::try_sequence_intersperse_with(children, separator)
    }

    /// A nest of the given indentation around the child; a nil child gives
    /// the shared nil node.
    pub fn nest(&self, indentation: usize, inner: ArcDoc<A>) -> (r: ArcDoc<A>)
        ensures
            arc_tree(r) == (if arc_tree(inner) is Nil {
                DocTree::<A>::Nil
            } else {
                DocTree::Nest(indentation as nat, Box::new(arc_tree(inner)))
            }),
    {
        if matches!(*inner.0, ArcNode::Nil) {
            self.nil()
        } else {
            self.allocate(ArcNode::Nest(indentation, inner))
        }
    }

    /// An annotation over the child.
    pub fn annotation(&self, annotation: A, inner: ArcDoc<A>) -> (r: ArcDoc<A>)
        ensures
            arc_tree(r) == DocTree::Annotation(annotation, Box::new(arc_tree(inner))),
    {
        self.allocate(ArcNode::Annotation(Box::new(annotation), inner))
    }
}

impl<A> BoxDoc<A> {
    /// Converts the document to a shared one, rebuilt through the smart
    /// constructors of a fresh builder, its equal leaves shared.
    pub fn into_arc(self) -> (r: ArcDoc<A>)
        ensures
            arc_tree(r) == rebuilt(doc_tree(self)),
    {
        self.into_arc_with(&ArcDocBuilder::<A>::empty())
    }

    /// Converts the document to a shared one, rebuilt bottom up through the
    /// smart constructors of the builder: sequences lose their nil children,
    /// nests around nil become nil, and leaves are shared through the
    /// builder.
    pub fn into_arc_with(self, builder: &ArcDocBuilder<A>) -> (r: ArcDoc<A>)
        ensures
            arc_tree(r) == rebuilt(doc_tree(self)),
        decreases tree_size(doc_tree(self)),
    {
        let ghost t = doc_tree(self);
        match *self.0 {
            Document::Nil => builder.nil(),
            Document::Text(fragment) => builder.allocate(ArcNode::Text(fragment)),
            Document::Break(breaker) => builder.allocate(ArcNode::Break(breaker)),
            Document::HardLinebreak => builder.hard_linebreak(),
            Document::Group(policy, child) => builder.group_with(policy, child.into_arc_with(builder)),
            Document::Sequence(sequence) => {
                let _ = sequence.status();
                let ghost cs = sequence.children_trees();
                let children = sequence.into_children();
                let ghost orig = children@;
                let n = children.len();
                let mut reversed = reverse_vec(children);
                let mut converted: Vec<ArcDoc<A>> = Vec::new();
                proof {
                    lemma_trees_of(orig);
                    lemma_seq_size_each(cs);
                    assert(arc_trees(converted@) =~= rebuilt_seq(cs.take(0)));
                }
                while reversed.len() > 0
                    invariant
                        n == orig.len(),
                        cs == trees_of(orig),
                        cs.len() == n,
                        t == DocTree::<A>::Sequence(cs),
                        t == doc_tree(self),
                        seq_status_ok(cs),
                        tree_size(t) == 1 + seq_size(cs),
                        forall|i: int| 0 <= i < n ==> tree_size(#[trigger] cs[i]) <= seq_size(cs),
                        reversed@.len() <= n,
                        forall|k: int| 0 <= k < reversed@.len() ==> #[trigger] reversed@[k] == orig[n - 1 - k],
                        arc_trees(converted@) == rebuilt_seq(cs.take(n - reversed@.len())),
                    decreases reversed@.len(),
                {
                    let ghost j = n - reversed@.len();
                    let c = reversed.pop().unwrap();
                    proof {
                        lemma_trees_of(orig);
                        assert(doc_tree(c) == cs[j]);
                        assert(tree_size(doc_tree(c)) < tree_size(t));
                    }
                    let a = c.into_arc_with(builder);
                    proof {
                        lemma_arc_trees_push(converted@, a);
                        let tk = cs.take(j + 1);
                        assert(tk.subrange(0, tk.len() - 1) =~= cs.take(j));
                        assert(tk[tk.len() - 1] == cs[j]);
                    }
                    converted.push(a);
                }
                proof {
                    assert(cs.take(n as int) =~= cs);
                    lemma_rebuilt_seq_status(cs);
                }
                builder.sequence(converted)
            },
            Document::Nest(indentation, child) => builder.nest(indentation, child.into_arc_with(builder)),
            Document::Annotation(annotation, child) => {
                let c = child.into_arc_with(builder);
                builder.allocate(ArcNode::Annotation(annotation, c))
            },
        }
    }
}

} // verus!
