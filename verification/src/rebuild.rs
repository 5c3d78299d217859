//! What converting a document between handle types gives: each node is
//! rebuilt through the smart constructors, which drop the nil children of
//! sequences and the nests around nil, or, where a shared node cannot be
//! moved out of, copied whole.

use vstd::prelude::*;

use crate::properties::{events_alike, lemma_cloned_seq_each, lemma_copy_lays_out_alike};
use crate::layout::{
    cook_final, cook_init, cook_step, group_child, layout_events, layout_raw, raw, raw_seq, sat, CookState,
    LayoutMode, LayoutSettings, RawEvent,
};
use crate::renderer::plaintext;
use crate::document::{
    any_observable, cloned_seq, cloned_tree, flat_len, flat_len_seq, lemma_cloned_tree, lemma_non_nil,
    lemma_seq_status_equiv, lemma_status_ok, non_nil, add_status, status_ok, observable, seq_status_ok, sequence_tree,
    piece_tree, text_trees, DocTree, GroupPolicy, Piece,
};

verus! {

/// The document that the `nest` smart constructor makes: nil around nil,
/// else the nest.
pub open spec fn nest_tree<A>(k: nat, c: DocTree<A>) -> DocTree<A> {
    if c is Nil {
        DocTree::Nil
    } else {
        DocTree::Nest(k, Box::new(c))
    }
}

/// The document rebuilt through the smart constructors, bottom up: groups
/// and annotations are kept, sequences are made by `sequence` of their
/// rebuilt children, nests by `nest` of their rebuilt child.
pub open spec fn rebuilt<A>(t: DocTree<A>) -> DocTree<A>
    decreases t,
{
    match t {
        DocTree::Group(p, c) => DocTree::Group(p, Box::new(rebuilt(*c))),
        DocTree::Sequence(cs) => sequence_tree(rebuilt_seq(cs)),
        DocTree::Nest(k, c) => nest_tree(k, rebuilt(*c)),
        DocTree::Annotation(a, c) => DocTree::Annotation(a, Box::new(rebuilt(*c))),
        _ => t,
    }
}

/// Each document of the list rebuilt.
pub open spec fn rebuilt_seq<A>(cs: Seq<DocTree<A>>) -> Seq<DocTree<A>>
    decreases cs,
{
    if cs.len() == 0 {
        seq![]
    } else {
        rebuilt_seq(cs.subrange(0, cs.len() - 1)).push(rebuilt(cs[cs.len() - 1]))
    }
}

/// Which nodes of a document a conversion rebuilt through the smart
/// constructors: `Whole` for a node copied whole, as one shared elsewhere
/// is, and `Rebuilt` for one rebuilt, with the choices for its children.
pub enum Conversion {
    Whole,
    Rebuilt(Seq<Conversion>),
}

/// The document that a conversion makes of `t` under the choices `ch`: a
/// node copied whole is kept as it is; a node rebuilt is made by the smart
/// constructor of its kind from its converted children.
pub open spec fn converted<A>(t: DocTree<A>, ch: Conversion) -> DocTree<A>
    decreases t,
{
    match ch {
        Conversion::Whole => t,
        Conversion::Rebuilt(chs) => match t {
            DocTree::Group(p, c) => DocTree::Group(p, Box::new(converted(*c, chs[0]))),
            DocTree::Sequence(cs) => sequence_tree(converted_seq(cs, chs)),
            DocTree::Nest(k, c) => nest_tree(k, converted(*c, chs[0])),
            DocTree::Annotation(a, c) => DocTree::Annotation(a, Box::new(converted(*c, chs[0]))),
            _ => t,
        },
    }
}

/// Each document of the list converted under the choice at its index.
pub open spec fn converted_seq<A>(cs: Seq<DocTree<A>>, chs: Seq<Conversion>) -> Seq<DocTree<A>>
    decreases cs,
{
    if cs.len() == 0 {
        seq![]
    } else {
        converted_seq(cs.subrange(0, cs.len() - 1), chs).push(converted(cs[cs.len() - 1], chs[cs.len() - 1]))
    }
}

/// `r` is what a conversion makes of `t` under some choice of the nodes it
/// rebuilt, up to clones of annotations.
pub open spec fn conversion_of<A: Clone>(t: DocTree<A>, r: DocTree<A>) -> bool {
    exists|ch: Conversion| #[trigger] cloned_tree(converted(t, ch), r)
}

/// `rebuilt_seq` rebuilds each document of the list.
pub proof fn lemma_rebuilt_seq<A>(cs: Seq<DocTree<A>>)
    ensures
        #[trigger] rebuilt_seq(cs).len() == cs.len(),
        forall|i: int| 0 <= i < cs.len() ==> #[trigger] rebuilt_seq(cs)[i] == rebuilt(cs[i]),
    decreases cs.len(),
{
    if cs.len() > 0 {
        lemma_rebuilt_seq(cs.subrange(0, cs.len() - 1));
    }
}

/// The break status and the observability of what `sequence` makes of a
/// list are those of the list.
pub proof fn lemma_sequence_tree_status<A>(xs: Seq<DocTree<A>>)
    ensures
        flat_len(sequence_tree(xs)) == flat_len_seq(xs),
        observable(sequence_tree(xs), GroupPolicy::Normal) == any_observable(xs),
        observable(sequence_tree(xs), GroupPolicy::ForceBreak) == any_observable(xs),
{
    lemma_non_nil(xs);
    let kept = non_nil(xs);
    if kept.len() == 1 {
        let k0 = kept[0];
        let e = kept.subrange(0, kept.len() - 1);
        assert(e =~= Seq::<DocTree<A>>::empty());
        assert(flat_len_seq(e) == Some(0nat));
        assert(!any_observable(e));
        assert(kept[kept.len() - 1] == k0);
        assert(flat_len_seq(kept) == add_status(Some(0nat), flat_len(k0)));
        match flat_len(k0) {
            Some(x) => assert(add_status(Some(0nat), Some(x)) == Some(x)),
            None => {},
        }
        assert(any_observable(kept) == observable(k0, GroupPolicy::Normal));
        lemma_observable_normal_force(k0);
    }
}

/// Groups hide their contents from the `Normal` and the `ForceBreak`
/// policies alike.
pub proof fn lemma_observable_normal_force<A>(t: DocTree<A>)
    ensures
        observable(t, GroupPolicy::Normal) == observable(t, GroupPolicy::ForceBreak),
    decreases t,
{
    match t {
        DocTree::Nest(_, c) => lemma_observable_normal_force(*c),
        DocTree::Annotation(_, c) => lemma_observable_normal_force(*c),
        _ => {},
    }
}

/// Two lists whose documents have the same break statuses and
/// observability, one for one, have the same of both.
proof fn lemma_seq_alike<A>(xs: Seq<DocTree<A>>, ys: Seq<DocTree<A>>)
    requires
        xs.len() == ys.len(),
        forall|i: int| 0 <= i < xs.len() ==> flat_len(#[trigger] xs[i]) == flat_len(ys[i]) && observable(
            xs[i],
            GroupPolicy::Normal,
        ) == observable(ys[i], GroupPolicy::Normal),
    ensures
        flat_len_seq(xs) == flat_len_seq(ys),
        any_observable(xs) == any_observable(ys),
        seq_status_ok(xs) == seq_status_ok(ys),
    decreases xs.len(),
{
    assert forall|i: int| 0 <= i < xs.len() implies flat_len(#[trigger] xs[i]) == flat_len(ys[i]) && status_ok(xs[i]) == status_ok(
        ys[i],
    ) by {
        lemma_status_ok(xs[i]);
        lemma_status_ok(ys[i]);
    }
    lemma_seq_status_equiv(xs, ys);
    if xs.len() > 0 {
        let xd = xs.subrange(0, xs.len() - 1);
        let yd = ys.subrange(0, ys.len() - 1);
        assert forall|i: int| 0 <= i < xd.len() implies flat_len(#[trigger] xd[i]) == flat_len(yd[i]) && observable(
            xd[i],
            GroupPolicy::Normal,
        ) == observable(yd[i], GroupPolicy::Normal) by {
            assert(xd[i] == xs[i]);
            assert(yd[i] == ys[i]);
        }
        lemma_seq_alike(xd, yd);
        assert(observable(xs[xs.len() - 1], GroupPolicy::Normal) == observable(ys[ys.len() - 1], GroupPolicy::Normal));
    }
}

/// Rebuilding keeps the break status and the observability of a document.
pub proof fn lemma_rebuilt_status<A>(t: DocTree<A>)
    ensures
        flat_len(rebuilt(t)) == flat_len(t),
        observable(rebuilt(t), GroupPolicy::Normal) == observable(t, GroupPolicy::Normal),
        observable(rebuilt(t), GroupPolicy::ForceBreak) == observable(t, GroupPolicy::ForceBreak),
    decreases t,
{
    lemma_observable_normal_force(t);
    lemma_observable_normal_force(rebuilt(t));
    match t {
        DocTree::Group(p, c) => {
            lemma_rebuilt_status(*c);
        },
        DocTree::Sequence(cs) => {
            lemma_rebuilt_seq_status(cs);
            lemma_sequence_tree_status(rebuilt_seq(cs));
        },
        DocTree::Nest(k, c) => {
            lemma_rebuilt_status(*c);
        },
        DocTree::Annotation(a, c) => {
            lemma_rebuilt_status(*c);
        },
        _ => {},
    }
}

/// Rebuilding each document of a list keeps the list's break status,
/// observability and status computation.
pub proof fn lemma_rebuilt_seq_status<A>(cs: Seq<DocTree<A>>)
    ensures
        flat_len_seq(rebuilt_seq(cs)) == flat_len_seq(cs),
        any_observable(rebuilt_seq(cs)) == any_observable(cs),
        seq_status_ok(rebuilt_seq(cs)) == seq_status_ok(cs),
    decreases cs,
{
    lemma_rebuilt_seq(cs);
    let rs = rebuilt_seq(cs);
    assert forall|i: int| 0 <= i < cs.len() implies flat_len(#[trigger] cs[i]) == flat_len(rs[i]) && observable(
        cs[i],
        GroupPolicy::Normal,
    ) == observable(rs[i], GroupPolicy::Normal) by {
        lemma_rebuilt_status(cs[i]);
    }
    lemma_seq_alike(cs, rs);
}

/// `converted_seq` converts each document of the list.
pub proof fn lemma_converted_seq<A>(cs: Seq<DocTree<A>>, chs: Seq<Conversion>)
    ensures
        #[trigger] converted_seq(cs, chs).len() == cs.len(),
        forall|i: int| 0 <= i < cs.len() ==> #[trigger] converted_seq(cs, chs)[i] == converted(cs[i], chs[i]),
    decreases cs.len(),
{
    if cs.len() > 0 {
        lemma_converted_seq(cs.subrange(0, cs.len() - 1), chs);
    }
}

/// A conversion keeps the break status and the observability of a
/// document.
pub proof fn lemma_converted_status<A>(t: DocTree<A>, ch: Conversion)
    ensures
        flat_len(converted(t, ch)) == flat_len(t),
        observable(converted(t, ch), GroupPolicy::Normal) == observable(t, GroupPolicy::Normal),
        observable(converted(t, ch), GroupPolicy::ForceBreak) == observable(t, GroupPolicy::ForceBreak),
    decreases t,
{
    lemma_observable_normal_force(t);
    lemma_observable_normal_force(converted(t, ch));
    match ch {
        Conversion::Whole => {},
        Conversion::Rebuilt(chs) => match t {
            DocTree::Group(p, c) => lemma_converted_status(*c, chs[0]),
            DocTree::Sequence(cs) => {
                lemma_converted_seq(cs, chs);
                let ys = converted_seq(cs, chs);
                assert forall|i: int| 0 <= i < cs.len() implies flat_len(#[trigger] cs[i]) == flat_len(ys[i])
                    && observable(cs[i], GroupPolicy::Normal) == observable(ys[i], GroupPolicy::Normal) by {
                    lemma_converted_status(cs[i], chs[i]);
                }
                lemma_seq_alike(cs, ys);
                lemma_sequence_tree_status(ys);
            },
            DocTree::Nest(k, c) => lemma_converted_status(*c, chs[0]),
            DocTree::Annotation(a, c) => lemma_converted_status(*c, chs[0]),
            _ => {},
        },
    }
}

/// Converting each document of a list keeps the list's status
/// computation within `usize`.
pub proof fn lemma_converted_seq_status<A>(cs: Seq<DocTree<A>>, chs: Seq<Conversion>)
    ensures
        seq_status_ok(converted_seq(cs, chs)) == seq_status_ok(cs),
        flat_len_seq(converted_seq(cs, chs)) == flat_len_seq(cs),
{
    lemma_converted_seq(cs, chs);
    let ys = converted_seq(cs, chs);
    assert forall|i: int| 0 <= i < cs.len() implies flat_len(#[trigger] cs[i]) == flat_len(ys[i]) && observable(
        cs[i],
        GroupPolicy::Normal,
    ) == observable(ys[i], GroupPolicy::Normal) by {
        lemma_converted_status(cs[i], chs[i]);
    }
    lemma_seq_alike(cs, ys);
}

/// Lists of the same length, each document of the second a copy of the one
/// of the first at its index, are copies one for one.
pub proof fn lemma_cloned_seq_of_each<A: Clone>(xs: Seq<DocTree<A>>, ys: Seq<DocTree<A>>)
    requires
        ys.len() == xs.len(),
        forall|i: int| 0 <= i < xs.len() ==> #[trigger] cloned_tree(xs[i], ys[i]),
    ensures
        cloned_seq(xs, ys),
    decreases xs.len(),
{
    if xs.len() > 0 {
        let xd = xs.subrange(0, xs.len() - 1);
        let yd = ys.subrange(0, ys.len() - 1);
        assert forall|i: int| 0 <= i < xd.len() implies #[trigger] cloned_tree(xd[i], yd[i]) by {
            assert(xs[i] == xd[i]);
            assert(ys[i] == yd[i]);
            assert(cloned_tree(xs[i], ys[i]));
        }
        lemma_cloned_seq_of_each(xd, yd);
        assert(cloned_tree(xs[xs.len() - 1], ys[ys.len() - 1]));
    }
}

/// A copy is nil exactly when its original is.
pub proof fn lemma_cloned_nil<A: Clone>(x: DocTree<A>, y: DocTree<A>)
    requires
        cloned_tree(x, y),
    ensures
        (x is Nil) == (y is Nil),
{
}

/// Copying a list one for one and then dropping its nil documents gives a
/// copy of the list without its nil documents.
proof fn lemma_cloned_non_nil<A: Clone>(xs: Seq<DocTree<A>>, ys: Seq<DocTree<A>>)
    requires
        cloned_seq(xs, ys),
    ensures
        cloned_seq(non_nil(xs), non_nil(ys)),
    decreases xs.len(),
{
    if xs.len() > 0 {
        let xd = xs.subrange(0, xs.len() - 1);
        let yd = ys.subrange(0, ys.len() - 1);
        lemma_cloned_non_nil(xd, yd);
        assert(xs.drop_last() == xd);
        assert(ys.drop_last() == yd);
        lemma_cloned_nil(xs.last(), ys.last());
        if !(xs.last() is Nil) {
            let a = non_nil(xd);
            let b = non_nil(yd);
            lemma_cloned_seq_each(a, b);
            assert(a.push(xs.last()).subrange(0, a.len() as int) =~= a);
            assert(b.push(ys.last()).subrange(0, b.len() as int) =~= b);
        }
    }
}

/// Copies of a list make copies under `sequence`.
pub proof fn lemma_cloned_sequence_tree<A: Clone>(xs: Seq<DocTree<A>>, ys: Seq<DocTree<A>>)
    requires
        cloned_seq(xs, ys),
    ensures
        cloned_tree(sequence_tree(xs), sequence_tree(ys)),
{
    lemma_cloned_non_nil(xs, ys);
    let a = non_nil(xs);
    let b = non_nil(ys);
    lemma_cloned_seq_each(a, b);
}

/// A list without nil documents is kept whole by dropping the nil ones.
pub proof fn lemma_non_nil_kept<A>(xs: Seq<DocTree<A>>)
    requires
        forall|i: int| 0 <= i < xs.len() ==> !(#[trigger] xs[i] is Nil),
    ensures
        non_nil(xs) == xs,
    decreases xs.len(),
{
    if xs.len() > 0 {
        let d = xs.drop_last();
        assert forall|i: int| 0 <= i < d.len() implies !(#[trigger] d[i] is Nil) by {
            assert(d[i] == xs[i]);
        }
        lemma_non_nil_kept(d);
        assert(d.push(xs.last()) =~= xs);
    }
}

/// What `sequence` makes of a list of leaves is left unchanged by
/// rebuilding.
pub proof fn lemma_rebuilt_leaf_sequence<A>(xs: Seq<DocTree<A>>)
    requires
        forall|i: int| 0 <= i < xs.len() ==> crate::document::is_leaf_tree(#[trigger] xs[i]),
    ensures
        rebuilt(sequence_tree(xs)) == sequence_tree(xs),
{
    lemma_non_nil(xs);
    let kept = non_nil(xs);
    assert forall|i: int| 0 <= i < kept.len() implies crate::document::is_leaf_tree(#[trigger] kept[i]) by {
        lemma_non_nil_leaves(xs, i);
    }
    if kept.len() >= 2 {
        lemma_rebuilt_seq(kept);
        assert(rebuilt_seq(kept) =~= kept);
        lemma_non_nil_kept(kept);
    }
}

/// Every document kept by dropping the nil ones of a list of leaves is a
/// leaf.
proof fn lemma_non_nil_leaves<A>(xs: Seq<DocTree<A>>, i: int)
    requires
        forall|j: int| 0 <= j < xs.len() ==> crate::document::is_leaf_tree(#[trigger] xs[j]),
        0 <= i < non_nil(xs).len(),
    ensures
        crate::document::is_leaf_tree(non_nil(xs)[i]),
    decreases xs.len(),
{
    let d = xs.drop_last();
    lemma_non_nil(d);
    assert forall|j: int| 0 <= j < d.len() implies crate::document::is_leaf_tree(#[trigger] d[j]) by {
        assert(d[j] == xs[j]);
    }
    if xs.last() is Nil {
        lemma_non_nil_leaves(d, i);
    } else if i < non_nil(d).len() {
        lemma_non_nil_leaves(d, i);
        assert(non_nil(xs) == non_nil(d).push(xs.last()));
    } else {
        assert(non_nil(xs) == non_nil(d).push(xs.last()));
        assert(crate::document::is_leaf_tree(xs[xs.len() - 1]));
    }
}

/// The document of literal text is left unchanged by rebuilding.
pub proof fn lemma_rebuilt_text<A>(ps: Seq<Piece>)
    ensures
        rebuilt(sequence_tree(text_trees::<A>(ps))) == sequence_tree(text_trees::<A>(ps)),
{
    let xs = text_trees::<A>(ps);
    assert forall|i: int| 0 <= i < xs.len() implies crate::document::is_leaf_tree(#[trigger] xs[i]) by {
        assert(xs[i] == piece_tree::<A>(ps[i]));
    }
    lemma_rebuilt_leaf_sequence(xs);
}

/// A document as the smart constructors build it: no sequence holds a nil
/// child or fewer than two children, and no nest is around nil.
pub open spec fn canonical<A>(t: DocTree<A>) -> bool
    decreases t,
{
    match t {
        DocTree::Group(_, c) => canonical(*c),
        DocTree::Sequence(cs) => {
            &&& cs.len() >= 2
            &&& forall|i: int| 0 <= i < cs.len() ==> !(#[trigger] cs[i] is Nil)
            &&& canonical_seq(cs)
        },
        DocTree::Nest(_, c) => !(*c is Nil) && canonical(*c),
        DocTree::Annotation(_, c) => canonical(*c),
        _ => true,
    }
}

/// Every document of the list is canonical.
pub open spec fn canonical_seq<A>(cs: Seq<DocTree<A>>) -> bool
    decreases cs,
{
    if cs.len() == 0 {
        true
    } else {
        canonical_seq(cs.subrange(0, cs.len() - 1)) && canonical(cs[cs.len() - 1])
    }
}

/// Every document of a canonical list is canonical.
proof fn lemma_canonical_seq_each<A>(cs: Seq<DocTree<A>>)
    requires
        canonical_seq(cs),
    ensures
        forall|i: int| 0 <= i < cs.len() ==> canonical(#[trigger] cs[i]),
    decreases cs.len(),
{
    if cs.len() > 0 {
        let d = cs.subrange(0, cs.len() - 1);
        lemma_canonical_seq_each(d);
        assert forall|i: int| 0 <= i < cs.len() implies canonical(#[trigger] cs[i]) by {
            if i < cs.len() - 1 {
                assert(cs[i] == d[i]);
            }
        }
    }
}

/// A canonical document is what any conversion makes of it: rebuilding
/// each node through the smart constructors gives the node back.
pub proof fn lemma_canonical_converted<A>(t: DocTree<A>, ch: Conversion)
    requires
        canonical(t),
    ensures
        converted(t, ch) == t,
        rebuilt(t) == t,
    decreases t,
{
    match t {
        DocTree::Group(p, c) => {
            lemma_canonical_converted(*c, Conversion::Whole);
            if let Conversion::Rebuilt(chs) = ch {
                lemma_canonical_converted(*c, chs[0]);
            }
        },
        DocTree::Nest(k, c) => {
            lemma_canonical_converted(*c, Conversion::Whole);
            if let Conversion::Rebuilt(chs) = ch {
                lemma_canonical_converted(*c, chs[0]);
            }
        },
        DocTree::Annotation(a, c) => {
            lemma_canonical_converted(*c, Conversion::Whole);
            if let Conversion::Rebuilt(chs) = ch {
                lemma_canonical_converted(*c, chs[0]);
            }
        },
        DocTree::Sequence(cs) => {
            lemma_canonical_seq_each(cs);
            lemma_rebuilt_seq(cs);
            assert forall|i: int| 0 <= i < cs.len() implies #[trigger] rebuilt_seq(cs)[i] == cs[i] by {
                lemma_canonical_converted(cs[i], Conversion::Whole);
            }
            assert(rebuilt_seq(cs) =~= cs);
            lemma_non_nil_kept(cs);
            if let Conversion::Rebuilt(chs) = ch {
                lemma_converted_seq(cs, chs);
                assert forall|i: int| 0 <= i < cs.len() implies #[trigger] converted_seq(cs, chs)[i] == cs[i] by {
                    lemma_canonical_converted(cs[i], chs[i]);
                }
                assert(converted_seq(cs, chs) =~= cs);
            }
        },
        _ => {},
    }
}

/// Converting a canonical document gives a copy of it (its annotations
/// possibly cloned), which lays out alike and renders to the same text.
pub proof fn lemma_canonical_conversion_lays_out_alike<A: Clone>(t: DocTree<A>, r: DocTree<A>, s: LayoutSettings)
    requires
        canonical(t),
        conversion_of(t, r),
    ensures
        cloned_tree(t, r),
        events_alike(layout_events(t, s), layout_events(r, s)),
        plaintext(layout_events(t, s)) == plaintext(layout_events(r, s)),
{
    let ch = choose|ch: Conversion| #[trigger] cloned_tree(converted(t, ch), r);
    lemma_canonical_converted(t, ch);
    lemma_copy_lays_out_alike(t, r, s);
}

/// A document holds content: a text, a break, a hard linebreak, a group or
/// an annotation, possibly within sequences and nests.
pub open spec fn has_content<A>(t: DocTree<A>) -> bool
    decreases t,
{
    match t {
        DocTree::Nil => false,
        DocTree::Sequence(cs) => any_content(cs),
        DocTree::Nest(_, c) => has_content(*c),
        _ => true,
    }
}

/// Some document of the list holds content.
pub open spec fn any_content<A>(cs: Seq<DocTree<A>>) -> bool
    decreases cs,
{
    if cs.len() == 0 {
        false
    } else {
        any_content(cs.subrange(0, cs.len() - 1)) || has_content(cs[cs.len() - 1])
    }
}

/// Every nest of the document holds content.
pub open spec fn nests_hold_content<A>(t: DocTree<A>) -> bool
    decreases t,
{
    match t {
        DocTree::Group(_, c) => nests_hold_content(*c),
        DocTree::Sequence(cs) => all_nests_hold_content(cs),
        DocTree::Nest(_, c) => has_content(*c) && nests_hold_content(*c),
        DocTree::Annotation(_, c) => nests_hold_content(*c),
        _ => true,
    }
}

/// Every nest of every document of the list holds content.
pub open spec fn all_nests_hold_content<A>(cs: Seq<DocTree<A>>) -> bool
    decreases cs,
{
    if cs.len() == 0 {
        true
    } else {
        all_nests_hold_content(cs.subrange(0, cs.len() - 1)) && nests_hold_content(cs[cs.len() - 1])
    }
}

/// The choices that rebuild every node.
pub open spec fn rebuild_all<A>(t: DocTree<A>) -> Conversion
    decreases t,
{
    match t {
        DocTree::Group(_, c) => Conversion::Rebuilt(seq![rebuild_all(*c)]),
        DocTree::Sequence(cs) => Conversion::Rebuilt(rebuild_all_seq(cs)),
        DocTree::Nest(_, c) => Conversion::Rebuilt(seq![rebuild_all(*c)]),
        DocTree::Annotation(_, c) => Conversion::Rebuilt(seq![rebuild_all(*c)]),
        _ => Conversion::Rebuilt(seq![]),
    }
}

/// The choices that rebuild every node of each document of the list.
pub open spec fn rebuild_all_seq<A>(cs: Seq<DocTree<A>>) -> Seq<Conversion>
    decreases cs,
{
    if cs.len() == 0 {
        seq![]
    } else {
        rebuild_all_seq(cs.subrange(0, cs.len() - 1)).push(rebuild_all(cs[cs.len() - 1]))
    }
}

/// `rebuild_all_seq` holds the choices for each document of the list.
proof fn lemma_rebuild_all_seq<A>(cs: Seq<DocTree<A>>)
    ensures
        rebuild_all_seq(cs).len() == cs.len(),
        forall|i: int| 0 <= i < cs.len() ==> #[trigger] rebuild_all_seq(cs)[i] == rebuild_all(cs[i]),
    decreases cs.len(),
{
    if cs.len() > 0 {
        lemma_rebuild_all_seq(cs.subrange(0, cs.len() - 1));
    }
}

/// Rebuilding is the conversion that rebuilds every node.
pub proof fn lemma_rebuilt_is_converted<A>(t: DocTree<A>)
    ensures
        converted(t, rebuild_all(t)) == rebuilt(t),
    decreases t,
{
    match t {
        DocTree::Group(_, c) => lemma_rebuilt_is_converted(*c),
        DocTree::Nest(_, c) => lemma_rebuilt_is_converted(*c),
        DocTree::Annotation(_, c) => lemma_rebuilt_is_converted(*c),
        DocTree::Sequence(cs) => {
            let chs = rebuild_all_seq(cs);
            lemma_rebuild_all_seq(cs);
            lemma_converted_seq(cs, chs);
            lemma_rebuilt_seq(cs);
            assert forall|i: int| 0 <= i < cs.len() implies #[trigger] converted_seq(cs, chs)[i] == rebuilt_seq(cs)[i] by {
                lemma_rebuilt_is_converted(cs[i]);
            }
            assert(converted_seq(cs, chs) =~= rebuilt_seq(cs));
        },
        _ => {},
    }
}

/// A list with a document other than nil keeps one when its nil documents
/// are dropped.
proof fn lemma_non_nil_nonempty<A>(ys: Seq<DocTree<A>>, i: int)
    requires
        0 <= i < ys.len(),
        !(ys[i] is Nil),
    ensures
        non_nil(ys).len() > 0,
    decreases ys.len(),
{
    let d = ys.drop_last();
    if i < ys.len() - 1 && ys.last() is Nil {
        assert(d[i] == ys[i]);
        lemma_non_nil_nonempty(d, i);
    }
}

/// A conversion of a document that holds content is not nil.
proof fn lemma_content_converted<A>(t: DocTree<A>, ch: Conversion)
    requires
        has_content(t),
    ensures
        !(converted(t, ch) is Nil),
    decreases t,
{
    if let Conversion::Rebuilt(chs) = ch {
        match t {
            DocTree::Nest(k, c) => lemma_content_converted(*c, chs[0]),
            DocTree::Sequence(cs) => {
                let i = lemma_any_content_at(cs);
                let ys = converted_seq(cs, chs);
                lemma_converted_seq(cs, chs);
                lemma_content_converted(cs[i], chs[i]);
                lemma_non_nil_nonempty(ys, i);
                lemma_non_nil(ys);
                if non_nil(ys).len() == 1 {
                    assert(!(non_nil(ys)[0] is Nil));
                }
            },
            _ => {},
        }
    }
}

/// A list some document of which holds content: the index of one.
proof fn lemma_any_content_at<A>(cs: Seq<DocTree<A>>) -> (i: int)
    requires
        any_content(cs),
    ensures
        0 <= i < cs.len(),
        has_content(cs[i]),
    decreases cs.len(),
{
    let d = cs.subrange(0, cs.len() - 1);
    if has_content(cs[cs.len() - 1]) {
        cs.len() - 1
    } else {
        let j = lemma_any_content_at(d);
        assert(cs[j] == d[j]);
        j
    }
}

/// Every document of a list whose nests hold content has its nests hold
/// content.
proof fn lemma_all_nests_each<A>(cs: Seq<DocTree<A>>)
    requires
        all_nests_hold_content(cs),
    ensures
        forall|i: int| 0 <= i < cs.len() ==> nests_hold_content(#[trigger] cs[i]),
    decreases cs.len(),
{
    if cs.len() > 0 {
        let d = cs.subrange(0, cs.len() - 1);
        lemma_all_nests_each(d);
        assert forall|i: int| 0 <= i < cs.len() implies nests_hold_content(#[trigger] cs[i]) by {
            if i < cs.len() - 1 {
                assert(cs[i] == d[i]);
            }
        }
    }
}

/// Dropping the nil documents of a list, read from the front.
proof fn lemma_non_nil_front<A>(ys: Seq<DocTree<A>>)
    requires
        ys.len() > 0,
    ensures
        non_nil(ys) == (if ys[0] is Nil {
            non_nil(ys.subrange(1, ys.len() as int))
        } else {
            seq![ys[0]].add(non_nil(ys.subrange(1, ys.len() as int)))
        }),
    decreases ys.len(),
{
    let rest = ys.subrange(1, ys.len() as int);
    if ys.len() == 1 {
        assert(rest =~= Seq::<DocTree<A>>::empty());
        assert(ys.drop_last() =~= Seq::<DocTree<A>>::empty());
        if !(ys[0] is Nil) {
            assert(seq![ys[0]].add(Seq::<DocTree<A>>::empty()) =~= seq![ys[0]]);
            assert(Seq::<DocTree<A>>::empty().push(ys[0]) =~= seq![ys[0]]);
        }
    } else {
        let d = ys.drop_last();
        lemma_non_nil_front(d);
        assert(d.subrange(1, d.len() as int) =~= rest.drop_last());
        assert(rest.last() == ys.last());
        assert(d[0] == ys[0]);
        if !(ys[0] is Nil) {
            let x = non_nil(rest.drop_last());
            if !(ys.last() is Nil) {
                assert(seq![ys[0]].add(x).push(ys.last()) =~= seq![ys[0]].add(x.push(ys.last())));
            }
        }
    }
}

/// The raw events of a list do not change when its nil documents are
/// dropped.
proof fn lemma_raw_seq_non_nil<A>(ys: Seq<DocTree<A>>, indent: nat, mode: LayoutMode, ff: bool, s: LayoutSettings, st: CookState)
    ensures
        raw_seq(non_nil(ys), indent, mode, ff, s, st) == raw_seq(ys, indent, mode, ff, s, st),
    decreases ys.len(),
{
    if ys.len() > 0 {
        let rest = ys.subrange(1, ys.len() as int);
        lemma_non_nil_front(ys);
        let h = raw(ys[0], indent, mode, ff, s, st);
        let st2 = cook_final(h, st, s);
        lemma_raw_seq_non_nil(rest, indent, mode, ff, s, st2);
        if ys[0] is Nil {
            assert(h =~= Seq::<RawEvent<A>>::empty());
            assert(st2 == st);
            assert(raw_seq(ys, indent, mode, ff, s, st) =~= raw_seq(rest, indent, mode, ff, s, st));
        } else {
            let k = seq![ys[0]].add(non_nil(rest));
            assert(k[0] == ys[0]);
            assert(k.subrange(1, k.len() as int) =~= non_nil(rest));
        }
    }
}

/// The raw events of what `sequence` makes of a list are those of the list.
proof fn lemma_raw_sequence_tree<A>(ys: Seq<DocTree<A>>, indent: nat, mode: LayoutMode, ff: bool, s: LayoutSettings, st: CookState)
    ensures
        raw(sequence_tree(ys), indent, mode, ff, s, st) == raw_seq(ys, indent, mode, ff, s, st),
{
    lemma_raw_seq_non_nil(ys, indent, mode, ff, s, st);
    let kept = non_nil(ys);
    if kept.len() == 1 {
        let h = raw(kept[0], indent, mode, ff, s, st);
        let tail = kept.subrange(1, kept.len() as int);
        assert(tail =~= Seq::<DocTree<A>>::empty());
        assert(raw_seq(tail, indent, mode, ff, s, cook_final(h, st, s)) == Seq::<RawEvent<A>>::empty());
        assert(raw_seq(kept, indent, mode, ff, s, st) == h.add(raw_seq(tail, indent, mode, ff, s, cook_final(h, st, s))));
        assert(h.add(Seq::<RawEvent<A>>::empty()) =~= h);
    }
}

/// Two lists whose documents have the same raw events from any state, one
/// for one, have the same raw events.
proof fn lemma_raw_seq_pointwise<A>(xs: Seq<DocTree<A>>, ys: Seq<DocTree<A>>, indent: nat, mode: LayoutMode, ff: bool, s: LayoutSettings, st: CookState)
    requires
        xs.len() == ys.len(),
        forall|i: int, st2: CookState| 0 <= i < xs.len() ==> #[trigger] raw(xs[i], indent, mode, ff, s, st2) == raw(
            ys[i],
            indent,
            mode,
            ff,
            s,
            st2,
        ),
    ensures
        raw_seq(xs, indent, mode, ff, s, st) == raw_seq(ys, indent, mode, ff, s, st),
    decreases xs.len(),
{
    if xs.len() > 0 {
        let xr = xs.subrange(1, xs.len() as int);
        let yr = ys.subrange(1, ys.len() as int);
        assert(raw(xs[0], indent, mode, ff, s, st) == raw(ys[0], indent, mode, ff, s, st));
        let st2 = cook_final(raw(xs[0], indent, mode, ff, s, st), st, s);
        assert forall|i: int, st3: CookState| 0 <= i < xr.len() implies #[trigger] raw(xr[i], indent, mode, ff, s, st3)
            == raw(yr[i], indent, mode, ff, s, st3) by {
            assert(xr[i] == xs[i + 1]);
            assert(yr[i] == ys[i + 1]);
            assert(raw(xs[i + 1], indent, mode, ff, s, st3) == raw(ys[i + 1], indent, mode, ff, s, st3));
        }
        lemma_raw_seq_pointwise(xr, yr, indent, mode, ff, s, st2);
    }
}

/// A conversion of a document whose nests hold content has the raw events
/// of the document: sequences lose only nil children, which produce
/// nothing, and groups decide alike, the break statuses being kept.
pub proof fn lemma_raw_converted<A>(t: DocTree<A>, ch: Conversion, indent: nat, mode: LayoutMode, ff: bool, s: LayoutSettings, st: CookState)
    requires
        nests_hold_content(t),
    ensures
        raw(converted(t, ch), indent, mode, ff, s, st) == raw(t, indent, mode, ff, s, st),
    decreases t,
{
    if let Conversion::Rebuilt(chs) = ch {
        match t {
            DocTree::Group(p, c) => {
                lemma_converted_status(*c, chs[0]);
                let (m, f2) = group_child(p, *c, ff, s, st);
                assert(group_child(p, converted(*c, chs[0]), ff, s, st) == (m, f2));
                lemma_raw_converted(*c, chs[0], indent, m, f2, s, st);
            },
            DocTree::Nest(k, c) => {
                lemma_content_converted(*c, chs[0]);
                lemma_raw_converted(*c, chs[0], indent, mode, ff, s, st);
                lemma_raw_converted(
                    *c,
                    chs[0],
                    sat((indent + k) as nat),
                    mode,
                    ff,
                    s,
                    cook_step(RawEvent::<A>::NestIn(k), st, s).1,
                );
            },
            DocTree::Annotation(a, c) => {
                lemma_raw_converted(*c, chs[0], indent, mode, ff, s, cook_step(RawEvent::PushAnnotation(a), st, s).1);
            },
            DocTree::Sequence(cs) => {
                let ys = converted_seq(cs, chs);
                lemma_converted_seq(cs, chs);
                lemma_all_nests_each(cs);
                assert forall|i: int, st2: CookState| 0 <= i < ys.len() implies #[trigger] raw(ys[i], indent, mode, ff, s, st2)
                    == raw(cs[i], indent, mode, ff, s, st2) by {
                    lemma_raw_converted(cs[i], chs[i], indent, mode, ff, s, st2);
                }
                lemma_raw_seq_pointwise(ys, cs, indent, mode, ff, s, st);
                lemma_raw_sequence_tree(ys, indent, mode, ff, s, st);
            },
            _ => {},
        }
    }
}

/// Converting a document in which every nest holds content lays it out
/// alike: the same render events up to clones of annotations, so the same
/// text. This covers `into_box` (any choice of the nodes moved out of) and
/// `into_arc`, which rebuilds every node.
pub proof fn lemma_conversion_lays_out_alike<A: Clone>(t: DocTree<A>, r: DocTree<A>, s: LayoutSettings)
    requires
        nests_hold_content(t),
        conversion_of(t, r),
    ensures
        events_alike(layout_events(t, s), layout_events(r, s)),
        plaintext(layout_events(t, s)) == plaintext(layout_events(r, s)),
{
    let ch = choose|ch: Conversion| #[trigger] cloned_tree(converted(t, ch), r);
    lemma_raw_converted(t, ch, 0, s.initial_mode, false, s, cook_init());
    assert(layout_raw(converted(t, ch), s) == layout_raw(t, s));
    lemma_copy_lays_out_alike(converted(t, ch), r, s);
}

/// Rebuilding a document in which every nest holds content gives the same
/// render events, so the same text.
pub proof fn lemma_rebuilt_lays_out_alike<A>(t: DocTree<A>, s: LayoutSettings)
    requires
        nests_hold_content(t),
    ensures
        layout_events(rebuilt(t), s) == layout_events(t, s),
{
    lemma_rebuilt_is_converted(t);
    lemma_raw_converted(t, rebuild_all(t), 0, s.initial_mode, false, s, cook_init());
    assert(layout_raw(rebuilt(t), s) == layout_raw(t, s));
}

} // verus!
