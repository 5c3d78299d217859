//! `RefDoc`: a document whose nodes live in a `typed_arena::Arena` and refer
//! to their children by shared reference, and `RefDocBuilder`, which
//! allocates them and shares equal leaves.

use typed_arena::Arena;

use vstd::prelude::*;
use vstd::string::*;
use vstd::cell::invcell::InvCell;

use crate::document::{
    is_leaf_tree, lemma_status_ok, status_fits,
    any_observable, break_accepts, break_refusal, cloned_seq, cloned_tree, doc_tree, first_tab,
    flat_fragment_outcome, flat_len, flat_len_seq, flat_tree, free_of_tabs, intersperse,
    lemma_cloned_seq, lemma_non_nil, lemma_seq_status_ok_take, lemma_trees_of, lemma_trees_of_push,
    non_nil, observable, reverse_vec, seq_status_ok, sequence_tree, status_ok, text_to_pieces,
    text_trees, trees_of, Break, BreakNodeInvalid, BreakStatus, ContainsTab, DocTree, Document,
    FlatFragment, FragmentError, GroupPolicy, Sequence,
};
use crate::handle::arcdoc::{distinct_leaves, InternedLeaves};
use crate::handle::boxdoc::BoxDoc;
use crate::layout::{lemma_seq_size_each, seq_size, tree_size};
use crate::layout::{default_settings, layout_events, LayoutSettings};
use crate::lines::free_of_linebreaks;
use crate::properties::lemma_copy_lays_out_alike;
use crate::renderer::{plaintext, render_model, RenderError};

verus! {

/// `typed_arena::Arena`, declared so that documents can refer to it; its
/// contents are opaque to the proofs.
#[verifier::external_type_specification]
#[verifier::external_body]
#[verifier::reject_recursive_types(T)]
pub struct ExArena<T>(Arena<T>);

/// Moves a value into the arena and hands back a reference to it, valid as
/// long as the arena: calls `typed_arena::Arena::alloc`, which pushes the
/// value into the arena's current chunk (starting a larger chunk when that
/// one is full) and returns a reference to the pushed value. The contract
/// states that the reference is to the value given; what else the arena
/// holds is not stated.
#[verifier::external_body]
fn arena_alloc<'doc, T>(arena: &'doc Arena<T>, value: T) -> (r: &'doc T)
    ensures
        *r == value,
{
    arena.alloc(value)
}

/// The document format whose nodes live in an arena and refer to their
/// children by shared reference.
#[derive(Debug, PartialEq, Eq, Hash)]
pub struct RefDoc<'doc, A = ()>(pub &'doc RefNode<'doc, A>);

/// The earlier name of `RefDoc`.
pub type Doc<'doc, A = ()> = RefDoc<'doc, A>;

/// A node of a `RefDoc`, with the variants of `Document`.
#[derive(Debug, PartialEq, Eq, Hash)]
pub enum RefNode<'doc, A = ()> {
    /// Displays as nothing.
    Nil,
    /// Text that is always displayed flat.
    Text(FlatFragment<'static>),
    /// Displayed by its flat or broken payload, following the layout mode.
    Break(Break<'static>),
    /// A newline that always appears.
    HardLinebreak,
    /// A layout decision point.
    Group(GroupPolicy, RefDoc<'doc, A>),
    /// Children displayed one after another.
    Sequence(RefSequence<'doc, A>),
    /// Adds indentation to the child's newlines when laid out broken.
    Nest(usize, RefDoc<'doc, A>),
    /// An annotation over the child, passed on to renderers.
    Annotation(Box<A>, RefDoc<'doc, A>),
}

/// A sequence of child documents in an arena, with its break status and
/// observability computed once, at construction.
#[derive(Debug, PartialEq, Eq, Hash)]
pub struct RefSequence<'doc, A = ()> {
    children: Vec<RefDoc<'doc, A>>,
    status: BreakStatus,
    layout_mode_observable: bool,
}

/// The model of a document in an arena.
pub open spec fn ref_tree<'doc, A>(d: RefDoc<'doc, A>) -> DocTree<A>
    decreases d,
{
    ref_node_tree(*d.0)
}

/// The model of a node in an arena.
pub open spec fn ref_node_tree<'doc, A>(n: RefNode<'doc, A>) -> DocTree<A>
    decreases n,
{
    match n {
        RefNode::Nil => DocTree::Nil,
        RefNode::Text(f) => DocTree::Text(f.view_chars()),
        RefNode::Break(b) => DocTree::Break(b.flat_chars(), b.broken_pieces()),
        RefNode::HardLinebreak => DocTree::HardLinebreak,
        RefNode::Group(p, c) => DocTree::Group(p, Box::new(ref_tree(c))),
        RefNode::Sequence(s) => DocTree::Sequence(s.children_trees()),
        RefNode::Nest(k, c) => DocTree::Nest(k as nat, Box::new(ref_tree(c))),
        RefNode::Annotation(a, c) => DocTree::Annotation(*a, Box::new(ref_tree(c))),
    }
}

/// The models of a sequence of documents in an arena.
pub open spec fn ref_trees<'doc, A>(cs: Seq<RefDoc<'doc, A>>) -> Seq<DocTree<A>>
    decreases cs,
{
    if cs.len() == 0 {
        seq![]
    } else {
        ref_trees(cs.subrange(0, cs.len() - 1)).push(ref_tree(cs[cs.len() - 1]))
    }
}

/// `ref_trees` maps each document to its model.
pub proof fn lemma_ref_trees<'doc, A>(cs: Seq<RefDoc<'doc, A>>)
    ensures
        ref_trees(cs).len() == cs.len(),
        forall|i: int| 0 <= i < cs.len() ==> #[trigger] ref_trees(cs)[i] == ref_tree(cs[i]),
    decreases cs.len(),
{
    if cs.len() > 0 {
        lemma_ref_trees(cs.subrange(0, cs.len() - 1));
    }
}

/// The models of a sequence of documents with one more at the end.
proof fn lemma_ref_trees_push<'doc, A>(cs: Seq<RefDoc<'doc, A>>, c: RefDoc<'doc, A>)
    ensures
        ref_trees(cs.push(c)) == ref_trees(cs).push(ref_tree(c)),
{
    assert(cs.push(c).subrange(0, cs.len() as int) =~= cs);
}

impl<'doc, A> RefSequence<'doc, A> {
    #[verifier::type_invariant]
    spec fn inv(self) -> bool {
        &&& seq_status_ok(ref_trees(self.children@))
        &&& self.status.model() == flat_len_seq(ref_trees(self.children@))
        &&& self.layout_mode_observable == any_observable(ref_trees(self.children@))
    }

    /// The models of the children.
    pub closed spec fn children_trees(self) -> Seq<DocTree<A>>
        decreases self,
    {
        ref_trees(self.children@)
    }

    /// Builds a sequence of the children, computing its break status and
    /// observability once.
    pub fn new(children: Vec<RefDoc<'doc, A>>) -> (r: RefSequence<'doc, A>)
        requires
            seq_status_ok(ref_trees(children@)),
        ensures
            r.children_trees() == ref_trees(children@),
    {
        let ghost cs = ref_trees(children@);
        let mut status = BreakStatus::FlatLength(0);
        let mut observable = false;
        let n = children.len();
        let mut i: usize = 0;
        proof {
            lemma_ref_trees(children@);
            assert(cs.take(0) =~= Seq::<DocTree<A>>::empty());
        }
        while i < n
            invariant
                n == children@.len(),
                cs == ref_trees(children@),
                cs.len() == n,
                i <= n,
                seq_status_ok(cs),
                status.model() == flat_len_seq(cs.take(i as int)),
                observable == any_observable(cs.take(i as int)),
            decreases n - i,
        {
            proof {
                lemma_ref_trees(children@);
                lemma_seq_status_ok_take(cs, i + 1);
                assert(cs.take(i + 1).drop_last() =~= cs.take(i as int));
                assert(cs.take(i + 1).last() == cs[i as int]);
            }
            let child: &RefNode<'doc, A> = children[i].0;
            status = status.add(child.break_status());
            observable = observable || child.layout_mode_observable(GroupPolicy::Normal);
            i = i + 1;
        }
        proof {
            assert(cs.take(n as int) =~= cs);
        }
        RefSequence { children, status, layout_mode_observable: observable }
    }

    /// The children.
    pub fn children(&self) -> (r: &Vec<RefDoc<'doc, A>>)
        ensures
            ref_trees(r@) == self.children_trees(),
    {
        &self.children
    }

    /// The break status computed at construction.
    pub fn status(&self) -> (r: BreakStatus)
        ensures
            r.model() == flat_len_seq(self.children_trees()),
            seq_status_ok(self.children_trees()),
    {
        proof {
            use_type_invariant(self);
        }
        self.status
    }

    /// The observability computed at construction.
    pub fn layout_mode_observable(&self) -> (r: bool)
        ensures
            r == any_observable(self.children_trees()),
    {
        proof {
            use_type_invariant(self);
        }
        self.layout_mode_observable
    }
}

impl<'doc, A> RefNode<'doc, A> {
    /// Whether a change of layout mode is observable in this node under the
    /// given enclosing policy.
    pub fn layout_mode_observable(&self, policy: GroupPolicy) -> (r: bool)
        ensures
            r == observable(ref_node_tree(*self), policy),
        decreases *self,
    {
        match self {
            RefNode::Break(_) => true,
            RefNode::Nil => false,
            RefNode::Text(_) => false,
            RefNode::HardLinebreak => false,
            RefNode::Group(inner, child) => {
                if matches!(policy, GroupPolicy::FlatIfPossible) && matches!(inner, GroupPolicy::Normal) {
                    child.0.layout_mode_observable(GroupPolicy::FlatIfPossible)
                } else {
                    false
                }
            },
            RefNode::Nest(_, child) => child.0.layout_mode_observable(policy),
            RefNode::Annotation(_, child) => child.0.layout_mode_observable(policy),
            RefNode::Sequence(sequence) => sequence.layout_mode_observable(),
        }
    }

    /// The break status of this node.
    pub fn break_status(&self) -> (r: BreakStatus)
        ensures
            r.model() == flat_len(ref_node_tree(*self)),
        decreases *self,
    {
        match self {
            RefNode::Nil => BreakStatus::FlatLength(0),
            RefNode::Text(fragment) => BreakStatus::FlatLength(fragment.unicode_width()),
            RefNode::Break(inner) => BreakStatus::FlatLength(inner.flat().unicode_width()),
            RefNode::HardLinebreak => BreakStatus::MustBreak,
            RefNode::Group(policy, child) => {
                if matches!(policy, GroupPolicy::ForceBreak) && child.0.layout_mode_observable(
                    GroupPolicy::ForceBreak,
                ) {
                    BreakStatus::MustBreak
                } else {
                    child.0.break_status()
                }
            },
            RefNode::Sequence(sequence) => sequence.status(),
            RefNode::Nest(_, child) => child.0.break_status(),
            RefNode::Annotation(_, child) => child.0.break_status(),
        }
    }
}

impl<'doc, A> Clone for RefDoc<'doc, A> {
    /// Another reference to the same node.
    fn clone(&self) -> (r: Self)
        ensures
            r == *self,
    {
        RefDoc(self.0)
    }
}

impl<'doc, A> core::ops::Deref for RefDoc<'doc, A> {
    type Target = RefNode<'doc, A>;

    fn deref(&self) -> (r: &RefNode<'doc, A>)
        ensures
            *r == *self.0,
    {
        self.0
    }
}

impl<'doc, A: Clone> RefDoc<'doc, A> {
    /// Renders the document as plain text with the default settings.
    pub fn to_plaintext(&self) -> (r: Result<String, RenderError>)
        ensures
            render_model(r) == plaintext(layout_events(ref_tree(*self), default_settings())),
    {
        self.to_plaintext_with(LayoutSettings::default())
    }

    /// Renders the document as plain text with the given settings: the text
    /// of its layout, or the first layout error.
    pub fn to_plaintext_with(&self, settings: LayoutSettings) -> (r: Result<String, RenderError>)
        ensures
            render_model(r) == plaintext(layout_events(ref_tree(*self), settings)),
    {
        let boxed = self.to_box();
        proof {
            lemma_copy_lays_out_alike(ref_tree(*self), doc_tree(boxed), settings);
        }
        boxed.to_plaintext_with(settings)
    }

    /// A boxed copy of the document; annotations are cloned.
    pub fn to_box(&self) -> (r: BoxDoc<A>)
        ensures
            cloned_tree(ref_tree(*self), doc_tree(r)),
        decreases tree_size(ref_tree(*self)),
    {
        let ghost t = ref_tree(*self);
        let node: Document<A> = match self.0 {
            RefNode::Nil => Document::Nil,
            RefNode::Text(fragment) => Document::Text(fragment.clone()),
            RefNode::Break(breaker) => Document::Break(breaker.clone()),
            RefNode::HardLinebreak => Document::HardLinebreak,
            RefNode::Group(policy, child) => Document::Group(*policy, child.to_box()),
            RefNode::Sequence(sequence) => {
                let _ = sequence.status();
                let children = sequence.children();
                let ghost cs = ref_trees(children@);
                let n = children.len();
                let mut converted: Vec<BoxDoc<A>> = Vec::new();
                let mut i: usize = 0;
                proof {
                    lemma_ref_trees(children@);
                    lemma_seq_size_each(cs);
                    assert(cs.take(0) =~= Seq::<DocTree<A>>::empty());
                }
                while i < n
                    invariant
                        n == children@.len(),
                        cs == ref_trees(children@),
                        cs.len() == n,
                        t == DocTree::<A>::Sequence(cs),
                        t == ref_tree(*self),
                        tree_size(t) == 1 + seq_size(cs),
                        forall|k: int| 0 <= k < n ==> tree_size(#[trigger] cs[k]) <= seq_size(cs),
                        i <= n,
                        cloned_seq(cs.take(i as int), trees_of(converted@)),
                    decreases n - i,
                {
                    proof {
                        lemma_ref_trees(children@);
                        assert(ref_tree(children@[i as int]) == cs[i as int]);
                        assert(tree_size(cs[i as int]) <= seq_size(cs));
                        assert(tree_size(ref_tree(children@[i as int])) < tree_size(ref_tree(*self)));
                    }
                    let copy = children[i].to_box();
                    proof {
                        lemma_trees_of_push(converted@, copy);
                        let ys = trees_of(converted@);
                        assert(cs.take(i + 1).subrange(0, i as int) =~= cs.take(i as int));
                        assert(ys.push(doc_tree(copy)).subrange(0, i as int) =~= ys);
                    }
                    converted.push(copy);
                    i = i + 1;
                }
                proof {
                    assert(cs.take(n as int) =~= cs);
                    lemma_cloned_seq(cs, trees_of(converted@));
                }
                Document::Sequence(Sequence::new(converted))
            },
            RefNode::Nest(indentation, child) => Document::Nest(*indentation, child.to_box()),
            RefNode::Annotation(annotation, child) => {
                let a: A = (**annotation).clone();
                Document::Annotation(Box::new(a), child.to_box())
            },
        };
        BoxDoc(Box::new(node))
    }
}

/// Whether two nodes are equal leaves (nil, flat text, break or hard
/// linebreak nodes with the same payloads).
fn same_leaf<'doc, A>(a: &RefNode<'doc, A>, b: &RefNode<'doc, A>) -> (r: bool)
    ensures
        r == (is_leaf_tree(ref_node_tree(*a)) && ref_node_tree(*a) == ref_node_tree(*b)),
{
    match (a, b) {
        (RefNode::Nil, RefNode::Nil) => true,
        (RefNode::HardLinebreak, RefNode::HardLinebreak) => true,
        (RefNode::Text(x), RefNode::Text(y)) => x.same_text(y),
        (RefNode::Break(x), RefNode::Break(y)) => x.same_payloads(y),
        _ => false,
    }
}

/// Whether the node is a leaf: nil, flat text, break or hard linebreak.
fn is_leaf<'doc, A>(node: &RefNode<'doc, A>) -> (r: bool)
    ensures
        r == is_leaf_tree(ref_node_tree(*node)),
{
    match node {
        RefNode::Nil | RefNode::Text(_) | RefNode::Break(_) | RefNode::HardLinebreak => true,
        _ => false,
    }
}

impl<'doc, A> vstd::predicate::Predicate<Vec<RefDoc<'doc, A>>> for InternedLeaves {
    open spec fn predicate(&self, v: Vec<RefDoc<'doc, A>>) -> bool {
        distinct_leaves(ref_trees(v@))
    }
}

/// The builder of documents in an arena: it allocates their nodes in the
/// arena, and the leaf nodes it allocates are shared between the documents
/// it builds, so that equal leaves are allocated once.
#[verifier::reject_recursive_types(A)]
pub struct RefDocBuilder<'doc, A = ()> {
    arena: &'doc Arena<RefNode<'doc, A>>,
    intern: InvCell<Vec<RefDoc<'doc, A>>, InternedLeaves>,
}

/// The earlier name of `RefDocBuilder`.
pub type DocBuilder<'doc, A = ()> = RefDocBuilder<'doc, A>;

impl<'doc, A> RefDocBuilder<'doc, A> {
    /// The arena in which the builder allocates.
    pub closed spec fn arena(self) -> &'doc Arena<RefNode<'doc, A>> {
        self.arena
    }

    /// A builder that allocates in the given arena, which must outlive the
    /// documents, and has interned nothing yet.
    pub fn new(arena: &'doc Arena<RefNode<'doc, A>>) -> (r: Self)
        ensures
            r.arena() == arena,
    {
        RefDocBuilder { arena, intern: InvCell::new(Vec::new(), Ghost(InternedLeaves)) }
    }

    /// Allocates a node in the arena; a leaf equal to one allocated before
    /// is shared with it.
    pub fn allocate(&self, doc: RefNode<'doc, A>) -> (r: RefDoc<'doc, A>)
        ensures
            ref_tree(r) == ref_node_tree(doc),
    {
        if !is_leaf(&doc) {
            return RefDoc(arena_alloc(self.arena, doc));
        }
        let fresh: Vec<RefDoc<'doc, A>> = Vec::new();
        proof {
            assert(ref_trees(fresh@) =~= Seq::<DocTree<A>>::empty());
        }
        let cache = self.intern.replace(fresh);
        let ghost ts = ref_trees(cache@);
        let n = cache.len();
        let mut i: usize = 0;
        proof {
            lemma_ref_trees(cache@);
        }
        while i < n
            invariant
                n == cache@.len(),
                i <= n,
                ts == ref_trees(cache@),
                ts.len() == n,
                self.intern.inv(cache),
                distinct_leaves(ts),
                forall|k: int| 0 <= k < cache@.len() ==> #[trigger] ts[k] == ref_tree(cache@[k]),
                forall|k: int| 0 <= k < i ==> #[trigger] ts[k] != ref_node_tree(doc),
            decreases n - i,
        {
            if same_leaf(cache[i].0, &doc) {
                let found = RefDoc(cache[i].0);
                let _ = self.intern.replace(cache);
                return found;
            }
            i = i + 1;
        }
        let node: &'doc RefNode<'doc, A> = arena_alloc(self.arena, doc);
        let mut cache = cache;
        let ghost before = cache@;
        cache.push(RefDoc(node));
        proof {
            lemma_ref_trees_push(before, RefDoc(node));
            let us = ref_trees(cache@);
            assert(cache@ == before.push(RefDoc(node)));
            assert(us == ts.push(ref_node_tree(doc)));
            assert forall|k: int| 0 <= k < us.len() implies is_leaf_tree(#[trigger] us[k]) by {
                if k < n {
                    assert(us[k] == ts[k]);
                }
            }
            assert forall|k: int, j: int| 0 <= k < j < us.len() implies #[trigger] us[k] != #[trigger] us[j] by {
                assert(us[k] == ts[k]);
                if j < n {
                    assert(us[j] == ts[j]);
                }
            }
        }
        let _ = self.intern.replace(cache);
        RefDoc(node)
    }

    /// The nil node, shared.
    pub fn nil(&self) -> (r: RefDoc<'doc, A>)
        ensures
            ref_tree(r) == DocTree::<A>::Nil,
    {
        self.allocate(RefNode::Nil)
    }

    /// Literal text, split along its newline sequences, with its leaves
    /// shared. The text must hold no tab.
    pub fn from_text(&self, payload: &str) -> (r: RefDoc<'doc, A>)
        requires
            free_of_tabs(payload.spec_bytes()),
            seq_status_ok(text_trees::<A>(text_to_pieces(payload@))),
        ensures
            ref_tree(r) == sequence_tree(text_trees::<A>(text_to_pieces(payload@))),
    {
        BoxDoc::from_text(payload).into_ref_with(self)
    }

    /// Literal text, split along its newline sequences, with its leaves
    /// shared.
    ///
    /// Fails when the text holds a tab, reporting the first.
    pub fn from_text_(&self, payload: &str) -> (r: Result<RefDoc<'doc, A>, ContainsTab>)
        requires
            free_of_tabs(payload.spec_bytes()) ==> seq_status_ok(text_trees::<A>(text_to_pieces(payload@))),
        ensures
            match r {
                Ok(d) => {
                    &&& free_of_tabs(payload.spec_bytes())
                    &&& ref_tree(d) == sequence_tree(text_trees::<A>(text_to_pieces(payload@)))
                },
                Err(ContainsTab::ContainsTab(i, s)) => first_tab(payload.spec_bytes(), i as int) && s@ == payload@,
            },
    {
        match Document::from_text(payload) {
            Ok(d) => Ok(d.into_ref_with(self)),
            Err(e) => Err(e),
        }
    }

    /// Flat text, shared. The payload must hold neither a tab nor a newline
    /// sequence.
    pub fn flat_text(&self, payload: &str) -> (r: RefDoc<'doc, A>)
        requires
            free_of_tabs(payload.spec_bytes()),
            free_of_linebreaks(payload.spec_bytes()),
        ensures
            ref_tree(r) == flat_tree::<A>(payload@),
    {
        BoxDoc::flat_text(payload).into_ref_with(self)
    }

    /// Flat text, shared.
    ///
    /// Fails when the payload is not a valid flat fragment.
    pub fn flat_text_(&self, payload: &str) -> (r: Result<RefDoc<'doc, A>, FragmentError>)
        ensures
            match r {
                Ok(d) => {
                    &&& free_of_tabs(payload.spec_bytes())
                    &&& free_of_linebreaks(payload.spec_bytes())
                    &&& ref_tree(d) == flat_tree::<A>(payload@)
                },
                Err(e) => flat_fragment_outcome(payload@, Err(e)),
            },
    {
        match Document::flat_text(payload) {
            Ok(d) => Ok(d.into_ref_with(self)),
            Err(e) => Err(e),
        }
    }

    /// A break node, shared. The payloads must make one.
    pub fn breaker(&self, flat: &str, broken: &str) -> (r: RefDoc<'doc, A>)
        requires
            break_accepts(flat@, broken@),
        ensures
            ref_tree(r) == DocTree::<A>::Break(flat@, text_to_pieces(broken@)),
    {
        BoxDoc::breaker(flat, broken).into_ref_with(self)
    }

    /// A break node, shared.
    ///
    /// Fails as `Break::new` does.
    pub fn breaker_(&self, flat: &str, broken: &str) -> (r: Result<RefDoc<'doc, A>, BreakNodeInvalid>)
        ensures
            match r {
                Ok(d) => {
                    &&& break_accepts(flat@, broken@)
                    &&& ref_tree(d) == DocTree::<A>::Break(flat@, text_to_pieces(broken@))
                },
                Err(e) => break_refusal(flat@, broken@, e),
            },
    {
        match Document::breaker(flat, broken) {
            Ok(d) => Ok(d.into_ref_with(self)),
            Err(e) => Err(e),
        }
    }

    /// A hard linebreak, shared.
    pub fn hard_linebreak(&self) -> (r: RefDoc<'doc, A>)
        ensures
            ref_tree(r) == DocTree::<A>::HardLinebreak,
    {
        self.allocate(RefNode::HardLinebreak)
    }

    /// A group with the default policy.
    pub fn group(&self, child: RefDoc<'doc, A>) -> (r: RefDoc<'doc, A>)
        ensures
            ref_tree(r) == DocTree::Group(GroupPolicy::Normal, Box::new(ref_tree(child))),
    {
        self.allocate(RefNode::Group(GroupPolicy::Normal, child))
    }

    /// A group with the given policy.
    pub fn group_with(&self, policy: GroupPolicy, child: RefDoc<'doc, A>) -> (r: RefDoc<'doc, A>)
        ensures
            ref_tree(r) == DocTree::Group(policy, Box::new(ref_tree(child))),
    {
        self.allocate(RefNode::Group(policy, child))
    }

    /// A group, with the default policy, over exactly what `sequence` makes
    /// of the children.
    pub fn grouped_sequence(&self, children: Vec<RefDoc<'doc, A>>) -> (r: RefDoc<'doc, A>)
        requires
            seq_status_ok(ref_trees(children@)),
        ensures
            ref_tree(r) == DocTree::Group(GroupPolicy::Normal, Box::new(sequence_tree(ref_trees(children@)))),
    {
        let sequence = self.sequence(children);
        self.group(sequence)
    }

    /// A group, with the given policy, over exactly what `sequence` makes of
    /// the children.
    pub fn grouped_sequence_with(&self, policy: GroupPolicy, children: Vec<RefDoc<'doc, A>>) -> (r: RefDoc<'doc, A>)
        requires
            seq_status_ok(ref_trees(children@)),
        ensures
            ref_tree(r) == DocTree::Group(policy, Box::new(sequence_tree(ref_trees(children@)))),
    {
        let sequence = self.sequence(children);
        self.group_with(policy, sequence)
    }

    /// The children without the nil ones, in order.
    fn drop_nil(children: Vec<RefDoc<'doc, A>>) -> (r: Vec<RefDoc<'doc, A>>)
        ensures
            ref_trees(r@) == non_nil(ref_trees(children@)),
    {
        let ghost cs = ref_trees(children@);
        let n = children.len();
        let mut kept: Vec<RefDoc<'doc, A>> = Vec::new();
        let mut i: usize = 0;
        proof {
            lemma_ref_trees(children@);
            assert(cs.take(0) =~= Seq::<DocTree<A>>::empty());
            assert(ref_trees(kept@) == Seq::<DocTree<A>>::empty());
        }
        while i < n
            invariant
                n == children@.len(),
                cs == ref_trees(children@),
                cs.len() == n,
                i <= n,
                ref_trees(kept@) == non_nil(cs.take(i as int)),
            decreases n - i,
        {
            let c = RefDoc(children[i].0);
            proof {
                lemma_ref_trees(children@);
                assert(ref_tree(c) == cs[i as int]);
                assert(cs.take(i + 1).drop_last() =~= cs.take(i as int));
                assert(cs.take(i + 1).last() == cs[i as int]);
                lemma_ref_trees_push(kept@, c);
            }
            if !matches!(c.0, RefNode::Nil) {
                kept.push(c);
            }
            i = i + 1;
        }
        proof {
            assert(cs.take(n as int) =~= cs);
        }
        kept
    }

    /// Whether the break status of a sequence of the children can be
    /// computed within `usize`: whether the flat lengths of the children add
    /// up, child after child, within `usize`.
    pub fn sequence_fits(children: &Vec<RefDoc<'doc, A>>) -> (r: bool)
        ensures
            r == seq_status_ok(ref_trees(children@)),
    {
        let ghost cs = ref_trees(children@);
        let n = children.len();
        let mut status = BreakStatus::FlatLength(0);
        let mut i: usize = 0;
        proof {
            lemma_ref_trees(children@);
            assert(cs.take(0) =~= Seq::<DocTree<A>>::empty());
        }
        while i < n
            invariant
                n == children@.len(),
                cs == ref_trees(children@),
                cs.len() == n,
                i <= n,
                seq_status_ok(cs.take(i as int)),
                status.model() == flat_len_seq(cs.take(i as int)),
            decreases n - i,
        {
            proof {
                lemma_ref_trees(children@);
                lemma_status_ok(cs[i as int]);
                assert(cs.take(i + 1).drop_last() =~= cs.take(i as int));
                assert(cs.take(i + 1).last() == cs[i as int]);
            }
            let child = children[i].0.break_status();
            match (status, child) {
                (BreakStatus::FlatLength(a), BreakStatus::FlatLength(b)) => {
                    match a.checked_add(b) {
                        Some(sum) => {
                            status = BreakStatus::FlatLength(sum);
                        },
                        None => {
                            proof {
                                assert(!status_fits(flat_len_seq(cs.take(i + 1))));
                                assert(!seq_status_ok(cs.take(i + 1)));
                                if seq_status_ok(cs) {
                                    lemma_seq_status_ok_take(cs, i + 1);
                                }
                            }
                            return false;
                        },
                    }
                },
                _ => {
                    status = BreakStatus::MustBreak;
                },
            }
            i = i + 1;
        }
        proof {
            assert(cs.take(n as int) =~= cs);
        }
        true
    }

    /// A sequence of the children, as `sequence`, when its break status can
    /// be computed within `usize`; `None` when it cannot.
    pub fn try_sequence(&self, children: Vec<RefDoc<'doc, A>>) -> (r: Option<RefDoc<'doc, A>>)
        ensures
            r is Some <==> seq_status_ok(ref_trees(children@)),
            r matches Some(d) ==> ref_tree(d) == sequence_tree(ref_trees(children@)),
    {
        if Self::sequence_fits(&children) {
            Some(self.sequence(children))
        } else {
            None
        }
    }

    /// Literal text, as `from_text_`, when the break status of the sequence
    /// of its pieces can be computed within `usize`; `None` when it cannot.
    pub fn try_from_text(&self, payload: &str) -> (r: Option<Result<RefDoc<'doc, A>, ContainsTab>>)
        ensures
            r is None <==> (free_of_tabs(payload.spec_bytes()) && !seq_status_ok(
                text_trees::<A>(text_to_pieces(payload@)),
            )),
            r matches Some(Ok(d)) ==> {
                &&& free_of_tabs(payload.spec_bytes())
                &&& ref_tree(d) == sequence_tree(text_trees::<A>(text_to_pieces(payload@)))
            },
            r matches Some(Err(ContainsTab::ContainsTab(i, s))) ==> first_tab(payload.spec_bytes(), i as int)
                && s@ == payload@,
    {
        match Document::try_from_text(payload) {
            Some(Ok(d)) => Some(Ok(d.into_ref_with(self))),
            Some(Err(e)) => Some(Err(e)),
            None => None,
        }
    }

    /// A sequence of the children: nil children are dropped; with none
    /// left, the shared nil node; with one, that child.
    pub fn sequence(&self, children: Vec<RefDoc<'doc, A>>) -> (r: RefDoc<'doc, A>)
        requires
            seq_status_ok(ref_trees(children@)),
        ensures
            ref_tree(r) == sequence_tree(ref_trees(children@)),
    {
        let ghost cs = ref_trees(children@);
        let mut kept = Self::drop_nil(children);
        proof {
            lemma_non_nil(cs);
            lemma_ref_trees(kept@);
        }
        let k = kept.len();
        if k == 0 {
            self.nil()
        } else if k == 1 {
            kept.pop().unwrap()
        } else {
            self.allocate(RefNode::Sequence(RefSequence::new(kept)))
        }
    }

    /// A sequence of the children, other than the nil ones, with the
    /// separator between each two; with a nil separator, the sequence of the
    /// children.
    pub fn sequence_intersperse_with(&self, children: Vec<RefDoc<'doc, A>>, separator: RefDoc<'doc, A>) -> (r: RefDoc<'doc, A>) where
        A: Clone,
        requires
            ref_tree(separator) is Nil ==> seq_status_ok(ref_trees(children@)),
            !(ref_tree(separator) is Nil) ==> seq_status_ok(
                intersperse(non_nil(ref_trees(children@)), ref_tree(separator)),
            ),
        ensures
            ref_tree(separator) is Nil ==> ref_tree(r) == sequence_tree(ref_trees(children@)),
            !(ref_tree(separator) is Nil) ==> ref_tree(r) == sequence_tree(
                intersperse(non_nil(ref_trees(children@)), ref_tree(separator)),
            ),
    {
        if matches!(separator.0, RefNode::Nil) {
            return self.sequence(children);
        }
        let out = Self::interspersed(children, separator);
        self.sequence(out)
    }

    /// A sequence of the children, as `sequence_intersperse_with`, when its
    /// break status can be computed within `usize`; `None` when it cannot.
    pub fn try_sequence_intersperse_with(&self, children: Vec<RefDoc<'doc, A>>, separator: RefDoc<'doc, A>) -> (r: Option<RefDoc<'doc, A>>) where
        A: Clone,
        ensures
            ref_tree(separator) is Nil ==> (r is Some <==> seq_status_ok(ref_trees(children@))),
            !(ref_tree(separator) is Nil) ==> (r is Some <==> seq_status_ok(
                intersperse(non_nil(ref_trees(children@)), ref_tree(separator)),
            )),
            ref_tree(separator) is Nil ==> (r matches Some(d) ==> ref_tree(d) == sequence_tree(
                ref_trees(children@),
            )),
            !(ref_tree(separator) is Nil) ==> (r matches Some(d) ==> ref_tree(d) == sequence_tree(
                intersperse(non_nil(ref_trees(children@)), ref_tree(separator)),
            )),
    {
        if matches!(separator.0, RefNode::Nil) {
            return self.try_sequence(children);
        }
        let out = Self::interspersed(children, separator);
        if Self::sequence_fits(&out) {
            Some(self.sequence(out))
        } else {
            None
        }
    }

    /// The children other than the nil ones, with the separator between
    /// each two.
    fn interspersed(children: Vec<RefDoc<'doc, A>>, separator: RefDoc<'doc, A>) -> (out: Vec<RefDoc<'doc, A>>)
        ensures
            ref_trees(out@) == intersperse(non_nil(ref_trees(children@)), ref_tree(separator)),
    {
        let ghost sep = ref_tree(separator);
        let ghost sep = ref_tree(separator);
        let kept = Self::drop_nil(children);
        let ghost ks = ref_trees(kept@);
        let n = kept.len();
        let mut out: Vec<RefDoc<'doc, A>> = Vec::new();
        let mut i: usize = 0;
        proof {
            lemma_ref_trees(kept@);
        }
        while i < n
            invariant
                n == ks.len(),
                n == kept@.len(),
                ks == ref_trees(kept@),
                i <= n,
                sep == ref_tree(separator),
                out@.len() == (if i == 0 { 0 } else { 2 * i - 1 }),
                forall|j: int| 0 <= j < out@.len() ==> ref_tree(#[trigger] out@[j]) == (if j % 2 == 0 {
                    ks[j / 2]
                } else {
                    sep
                }),
            decreases n - i,
        {
            let ghost before = out@;
            let c = RefDoc(kept[i].0);
            proof {
                lemma_ref_trees(kept@);
                assert(ref_tree(c) == ks[i as int]);
            }
            if i > 0 {
                out.push(RefDoc(separator.0));
            }
            out.push(c);
            proof {
                assert forall|j: int| 0 <= j < out@.len() implies ref_tree(#[trigger] out@[j]) == (if j % 2 == 0 {
                    ks[j / 2]
                } else {
                    sep
                }) by {
                    if j < before.len() {
                        assert(out@[j] == before[j]);
                    }
                }
            }
            i = i + 1;
        }
        proof {
            lemma_ref_trees(out@);
            assert(ref_trees(out@) =~= intersperse(ks, sep));
        }
        out
    }

    /// A nest of the given indentation around the child; a nil child gives
    /// the shared nil node.
    pub fn nest(&self, indentation: usize, inner: RefDoc<'doc, A>) -> (r: RefDoc<'doc, A>)
        ensures
            ref_tree(r) == (if ref_tree(inner) is Nil {
                DocTree::<A>::Nil
            } else {
                DocTree::Nest(indentation as nat, Box::new(ref_tree(inner)))
            }),
    {
        if matches!(inner.0, RefNode::Nil) {
            self.nil()
        } else {
            self.allocate(RefNode::Nest(indentation, inner))
        }
    }

    /// An annotation over the child.
    pub fn annotation(&self, annotation: A, inner: RefDoc<'doc, A>) -> (r: RefDoc<'doc, A>)
        ensures
            ref_tree(r) == DocTree::Annotation(annotation, Box::new(ref_tree(inner))),
    {
        self.allocate(RefNode::Annotation(Box::new(annotation), inner))
    }
}

impl<A> BoxDoc<A> {
    /// Moves the document into the builder's arena, its leaves shared
    /// through the builder.
    pub fn into_ref_with<'doc>(self, builder: &RefDocBuilder<'doc, A>) -> (r: RefDoc<'doc, A>)
        ensures
            ref_tree(r) == doc_tree(self),
        decreases tree_size(doc_tree(self)),
    {
        let ghost t = doc_tree(self);
        let node = match *self.0 {
            Document::Nil => RefNode::Nil,
            Document::Text(fragment) => RefNode::Text(fragment),
            Document::Break(breaker) => RefNode::Break(breaker),
            Document::HardLinebreak => RefNode::HardLinebreak,
            Document::Group(policy, child) => RefNode::Group(policy, child.into_ref_with(builder)),
            Document::Sequence(sequence) => {
                let status = sequence.status();
                let observable = sequence.layout_mode_observable();
                let ghost cs = sequence.children_trees();
                let children = sequence.into_children();
                let ghost orig = children@;
                let n = children.len();
                let mut reversed = reverse_vec(children);
                let mut converted: Vec<RefDoc<'doc, A>> = Vec::new();
                proof {
                    lemma_trees_of(orig);
                    lemma_seq_size_each(cs);
                    assert(ref_trees(converted@) =~= cs.take(0));
                }
                while reversed.len() > 0
                    invariant
                        n == orig.len(),
                        cs == trees_of(orig),
                        cs.len() == n,
                        t == DocTree::<A>::Sequence(cs),
                        t == doc_tree(self),
                        tree_size(t) == 1 + seq_size(cs),
                        forall|i: int| 0 <= i < n ==> tree_size(#[trigger] cs[i]) <= seq_size(cs),
                        reversed@.len() <= n,
                        forall|k: int| 0 <= k < reversed@.len() ==> #[trigger] reversed@[k] == orig[n - 1 - k],
                        ref_trees(converted@) == cs.take(n - reversed@.len()),
                    decreases reversed@.len(),
                {
                    let ghost j = n - reversed@.len();
                    let c = reversed.pop().unwrap();
                    proof {
                        lemma_trees_of(orig);
                        assert(doc_tree(c) == cs[j]);
                        assert(tree_size(doc_tree(c)) < tree_size(doc_tree(self)));
                    }
                    let a = c.into_ref_with(builder);
                    proof {
                        lemma_ref_trees_push(converted@, a);
                        assert(cs.take(j + 1) =~= cs.take(j).push(cs[j]));
                    }
                    converted.push(a);
                }
                proof {
                    assert(cs.take(n as int) =~= cs);
                }
                RefNode::Sequence(RefSequence { children: converted, status, layout_mode_observable: observable })
            },
            Document::Nest(indentation, child) => RefNode::Nest(indentation, child.into_ref_with(builder)),
            Document::Annotation(annotation, child) => RefNode::Annotation(annotation, child.into_ref_with(builder)),
        };
        builder.allocate(node)
    }
}

} // verus!
