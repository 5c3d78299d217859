//! Properties of the render event streams that layout produces: their shape,
//! the nesting of annotations, and what group policies and width
//! constraints guarantee.

use vstd::prelude::*;
use vstd::utf8::{decode_utf8, encode_utf8};

use crate::document::{
    add_status, any_observable, cloned_seq, cloned_tree, flat_len, flat_len_seq, lemma_cloned_tree, lemma_non_nil,
    non_nil, observable, piece_tree, sequence_tree, text_pieces, text_to_pieces, text_trees,
    width_of,
    DocTree, GroupPolicy, Piece,
};
use crate::layout::{
    cook, cook_final, cook_init, cook_step, final_err, group_child, normal_mode, padding_of, start_col,
    layout_events, layout_raw, piece_raw, raw, raw_pieces, raw_seq, sat, CookState, LayoutMode, LayoutSettings, LayoutWidthConstraint, RawEvent,
};
use crate::lines::{
    free_of_linebreaks, lemma_lines_from_keep, lemma_lines_from_len, lemma_split_lines_free, linebreak_at,
    no_linebreak_from, split_lines,
};
use crate::document::free_of_tabs;
use crate::rebuild::lemma_observable_normal_force;
use crate::renderer::{event_text, no_error, plaintext, texts, lemma_plaintext_split, EventModel};

verus! {

/// The shape of a render event stream: padding is always followed by text,
/// text is never empty and carries its display width, and an error comes at
/// the end of the line it concerns: right after its newline, or, for the
/// last line, at the end of the stream.
pub open spec fn well_shaped<A>(evs: Seq<EventModel<A>>) -> bool {
    forall|i: int| 0 <= i < evs.len() ==> {
        &&& (#[trigger] evs[i] is Padding ==> i + 1 < evs.len() && evs[i + 1] is Text)
        &&& (evs[i] is Error ==> (i > 0 && evs[i - 1] is Linebreak) || i + 1 == evs.len())
        &&& (evs[i] matches EventModel::Text(w, x) ==> w == width_of(x) && w > 0)
    }
}

/// The shape of the stream of the lines: as `well_shaped`, every error
/// right after a newline.
spec fn lines_well_shaped<A>(evs: Seq<EventModel<A>>) -> bool {
    forall|i: int| 0 <= i < evs.len() ==> {
        &&& (#[trigger] evs[i] is Padding ==> i + 1 < evs.len() && evs[i + 1] is Text)
        &&& (evs[i] is Error ==> i > 0 && evs[i - 1] is Linebreak)
        &&& (evs[i] matches EventModel::Text(w, x) ==> w == width_of(x) && w > 0)
    }
}

/// Two well-shaped streams, one after the other, make a well-shaped stream.
proof fn lemma_well_shaped_add<A>(a: Seq<EventModel<A>>, b: Seq<EventModel<A>>)
    requires
        lines_well_shaped(a),
        lines_well_shaped(b),
    ensures
        lines_well_shaped(a.add(b)),
{
    let c = a.add(b);
    assert forall|i: int| 0 <= i < c.len() implies {
        &&& (#[trigger] c[i] is Padding ==> i + 1 < c.len() && c[i + 1] is Text)
        &&& (c[i] is Error ==> i > 0 && c[i - 1] is Linebreak)
        &&& (c[i] matches EventModel::Text(w, x) ==> w == width_of(x) && w > 0)
    } by {
        if i < a.len() {
            assert(c[i] == a[i]);
            if a[i] is Padding {
                assert(c[i + 1] == a[i + 1]);
            }
            if a[i] is Error {
                assert(c[i - 1] == a[i - 1]);
            }
        } else {
            let j = i - a.len();
            assert(c[i] == b[j]);
            if b[j] is Padding {
                assert(c[i + 1] == b[j + 1]);
            }
            if b[j] is Error {
                assert(c[i - 1] == b[j - 1]);
            }
        }
    }
}

/// The events of any run of the second stage are well shaped.
proof fn lemma_cook_well_shaped<A>(evs: Seq<RawEvent<A>>, st: CookState, s: LayoutSettings)
    ensures
        lines_well_shaped(cook(evs, st, s)),
    decreases evs.len(),
{
    if evs.len() > 0 {
        let (out, next) = cook_step(evs[0], st, s);
        lemma_cook_well_shaped(evs.drop_first(), next, s);
        assert(lines_well_shaped(out)) by {
            assert forall|i: int| 0 <= i < out.len() implies {
                &&& (#[trigger] out[i] is Padding ==> i + 1 < out.len() && out[i + 1] is Text)
                &&& (out[i] is Error ==> i > 0 && out[i - 1] is Linebreak)
                &&& (out[i] matches EventModel::Text(w, x) ==> w == width_of(x) && w > 0)
            } by {}
        }
        lemma_well_shaped_add(out, cook(evs.drop_first(), next, s));
    }
}

/// The render events of every document are well shaped: padding is always
/// followed by text (no line ends in padding), empty text is never emitted
/// and each text carries its display width, and an error follows the
/// newline of the line it concerns.
pub proof fn lemma_layout_well_shaped<A>(t: DocTree<A>, s: LayoutSettings)
    ensures
        well_shaped(layout_events(t, s)),
{
    let r = layout_raw(t, s);
    let lines = cook(r, cook_init(), s);
    let last = final_err::<A>(cook_final(r, cook_init(), s), s);
    let evs = lines.add(last);
    lemma_cook_well_shaped(r, cook_init(), s);
    assert(evs == layout_events(t, s));
    assert forall|i: int| 0 <= i < evs.len() implies {
        &&& (#[trigger] evs[i] is Padding ==> i + 1 < evs.len() && evs[i + 1] is Text)
        &&& (evs[i] is Error ==> (i > 0 && evs[i - 1] is Linebreak) || i + 1 == evs.len())
        &&& (evs[i] matches EventModel::Text(w, x) ==> w == width_of(x) && w > 0)
    } by {
        if i < lines.len() {
            assert(evs[i] == lines[i]);
            if lines[i] is Padding {
                assert(evs[i + 1] == lines[i + 1]);
            }
            if lines[i] is Error {
                assert(evs[i - 1] == lines[i - 1]);
            }
        } else {
            assert(last.len() == 1);
            assert(i + 1 == evs.len());
            assert(evs[i] == last[0]);
        }
    }
}

/// No event of a run of the second stage under a relaxed constraint is an
/// error.
proof fn lemma_cook_relaxed<A>(evs: Seq<RawEvent<A>>, st: CookState, s: LayoutSettings)
    requires
        s.width_constraint == LayoutWidthConstraint::Relaxed,
    ensures
        no_error(cook(evs, st, s)),
    decreases evs.len(),
{
    if evs.len() > 0 {
        let (out, next) = cook_step(evs[0], st, s);
        lemma_cook_relaxed(evs.drop_first(), next, s);
        let rest = cook(evs.drop_first(), next, s);
        assert forall|i: int| 0 <= i < out.add(rest).len() implies !(#[trigger] out.add(rest)[i] is Error) by {
            if i < out.len() {
                assert(out.add(rest)[i] == out[i]);
            } else {
                assert(out.add(rest)[i] == rest[i - out.len()]);
            }
        }
    }
}

/// Under a relaxed width constraint, layout signals no error, and plaintext
/// rendering always succeeds.
pub proof fn lemma_relaxed_no_error<A>(t: DocTree<A>, s: LayoutSettings)
    requires
        s.width_constraint == LayoutWidthConstraint::Relaxed,
    ensures
        no_error(layout_events(t, s)),
        plaintext(layout_events(t, s)) == Ok::<Seq<char>, (nat, nat, nat)>(texts(layout_events(t, s))),
{
    let evs = layout_events(t, s);
    lemma_cook_relaxed(layout_raw(t, s), cook_init(), s);
    assert(final_err::<A>(cook_final(layout_raw(t, s), cook_init(), s), s) =~= Seq::<EventModel<A>>::empty());
    assert(evs =~= cook(layout_raw(t, s), cook_init(), s));
    assert(evs.take(evs.len() as int) =~= evs);
    lemma_plaintext_split(evs, evs.len() as int);
    assert(evs.skip(evs.len() as int).len() == 0);
    assert(texts(evs).add(Seq::<char>::empty()) =~= texts(evs));
}

/// No raw event of the list is a newline.
pub open spec fn no_line<A>(evs: Seq<RawEvent<A>>) -> bool {
    forall|i: int| 0 <= i < evs.len() ==> !(#[trigger] evs[i] is Line)
}

/// No event of the stream is a newline.
pub open spec fn no_linebreak<A>(evs: Seq<EventModel<A>>) -> bool {
    forall|i: int| 0 <= i < evs.len() ==> !(#[trigger] evs[i] is Linebreak)
}

proof fn lemma_no_line_add<A>(a: Seq<RawEvent<A>>, b: Seq<RawEvent<A>>)
    requires
        no_line(a),
        no_line(b),
    ensures
        no_line(a.add(b)),
{
    assert forall|i: int| 0 <= i < a.add(b).len() implies !(#[trigger] a.add(b)[i] is Line) by {
        if i < a.len() {
            assert(a.add(b)[i] == a[i]);
        } else {
            assert(a.add(b)[i] == b[i - a.len()]);
        }
    }
}

/// Each child of a sequence with a flat length, none of them observable,
/// has a flat length and is not observable.
proof fn lemma_seq_each<A>(cs: Seq<DocTree<A>>)
    ensures
        flat_len_seq(cs) is Some ==> forall|j: int| 0 <= j < cs.len() ==> #[trigger] flat_len(cs[j]) is Some,
        !any_observable(cs) ==> forall|j: int| 0 <= j < cs.len() ==> !observable(#[trigger] cs[j], GroupPolicy::Normal),
    decreases cs.len(),
{
    if cs.len() > 0 {
        let d = cs.subrange(0, cs.len() - 1);
        lemma_seq_each(d);
        if flat_len_seq(cs) is Some {
            assert(flat_len_seq(d) is Some);
            assert forall|j: int| 0 <= j < cs.len() implies #[trigger] flat_len(cs[j]) is Some by {
                if j < cs.len() - 1 {
                    assert(cs[j] == d[j]);
                    assert(flat_len(d[j]) is Some);
                }
            }
        }
        if !any_observable(cs) {
            assert forall|j: int| 0 <= j < cs.len() implies !observable(#[trigger] cs[j], GroupPolicy::Normal) by {
                if j < cs.len() - 1 {
                    assert(cs[j] == d[j]);
                    assert(!observable(d[j], GroupPolicy::Normal));
                }
            }
        }
    }
}

/// With force-flat in effect, a document with a flat length, laid out flat
/// or holding nothing observable, produces no newline.
proof fn lemma_forced_flat<A>(t: DocTree<A>, indent: nat, mode: LayoutMode, s: LayoutSettings, st: CookState)
    requires
        flat_len(t) is Some,
        mode == LayoutMode::Flat || !observable(t, GroupPolicy::Normal),
    ensures
        no_line(raw(t, indent, mode, true, s, st)),
    decreases t,
{
    match t {
        DocTree::Group(p, c) => {
            let (m, ff) = group_child(p, *c, true, s, st);
            if p == GroupPolicy::ForceBreak {
                lemma_observable_normal_force(*c);
            }
            lemma_forced_flat(*c, indent, m, s, st);
        },
        DocTree::Sequence(cs) => {
            lemma_seq_each(cs);
            lemma_forced_flat_seq(cs, indent, mode, s, st);
        },
        DocTree::Nest(k, c) => {
            if mode == LayoutMode::Broken {
                let st1 = cook_step(RawEvent::<A>::NestIn(k), st, s).1;
                lemma_forced_flat(*c, sat((indent + k) as nat), mode, s, st1);
                let inner = raw(*c, sat((indent + k) as nat), mode, true, s, st1);
                lemma_no_line_add(seq![RawEvent::NestIn(k)], inner);
                lemma_no_line_add(seq![RawEvent::NestIn(k)].add(inner), seq![RawEvent::NestOut(k)]);
            } else {
                lemma_forced_flat(*c, indent, mode, s, st);
            }
        },
        DocTree::Annotation(a, c) => {
            let st1 = cook_step(RawEvent::PushAnnotation(a), st, s).1;
            lemma_forced_flat(*c, indent, mode, s, st1);
            let inner = raw(*c, indent, mode, true, s, st1);
            lemma_no_line_add(seq![RawEvent::PushAnnotation(a)], inner);
            lemma_no_line_add(seq![RawEvent::PushAnnotation(a)].add(inner), seq![RawEvent::<A>::PopAnnotation]);
        },
        _ => {},
    }
}

/// The sequence form of `lemma_forced_flat`.
proof fn lemma_forced_flat_seq<A>(cs: Seq<DocTree<A>>, indent: nat, mode: LayoutMode, s: LayoutSettings, st: CookState)
    requires
        forall|j: int| 0 <= j < cs.len() ==> #[trigger] flat_len(cs[j]) is Some,
        forall|j: int| 0 <= j < cs.len() ==> mode == LayoutMode::Flat || !observable(#[trigger] cs[j], GroupPolicy::Normal),
    ensures
        no_line(raw_seq(cs, indent, mode, true, s, st)),
    decreases cs,
{
    if cs.len() > 0 {
        let tail = cs.subrange(1, cs.len() as int);
        let h = raw(cs[0], indent, mode, true, s, st);
        let st1 = cook_final(h, st, s);
        assert(flat_len(cs[0]) is Some);
        assert(mode == LayoutMode::Flat || !observable(cs[0], GroupPolicy::Normal));
        lemma_forced_flat(cs[0], indent, mode, s, st);
        assert forall|j: int| 0 <= j < tail.len() implies #[trigger] flat_len(tail[j]) is Some && (mode == LayoutMode::Flat || !observable(tail[j], GroupPolicy::Normal)) by {
            assert(tail[j] == cs[j + 1]);
        }
        lemma_forced_flat_seq(tail, indent, mode, s, st1);
        lemma_no_line_add(h, raw_seq(tail, indent, mode, true, s, st1));
    }
}

/// A `FlatIfPossible` group is laid out flat exactly when its child holds no
/// forced break (no hard linebreak, no `ForceBreak` group with an observable
/// child): then, wherever it stands, its raw events hold no newline; else its
/// child is laid out broken.
pub proof fn lemma_flat_if_possible<A>(c: DocTree<A>, indent: nat, mode: LayoutMode, force_flat: bool, s: LayoutSettings, st: CookState)
    ensures
        flat_len(c) is Some ==> no_line(raw(DocTree::Group(GroupPolicy::FlatIfPossible, Box::new(c)), indent, mode, force_flat, s, st)),
        flat_len(c) is None ==> group_child(GroupPolicy::FlatIfPossible, c, force_flat, s, st) == (LayoutMode::Broken, false),
{
    if flat_len(c) is Some {
        lemma_forced_flat(c, indent, LayoutMode::Flat, s, st);
    }
}

/// The second stage turns raw events without newlines into events without
/// newlines.
proof fn lemma_cook_no_line<A>(evs: Seq<RawEvent<A>>, st: CookState, s: LayoutSettings)
    requires
        no_line(evs),
    ensures
        no_linebreak(cook(evs, st, s)),
    decreases evs.len(),
{
    if evs.len() > 0 {
        let (out, next) = cook_step(evs[0], st, s);
        assert(!(evs[0] is Line));
        assert(no_line(evs.drop_first())) by {
            assert forall|i: int| 0 <= i < evs.drop_first().len() implies !(#[trigger] evs.drop_first()[i] is Line) by {
                assert(evs.drop_first()[i] == evs[i + 1]);
            }
        }
        lemma_cook_no_line(evs.drop_first(), next, s);
        let rest = cook(evs.drop_first(), next, s);
        assert forall|i: int| 0 <= i < out.add(rest).len() implies !(#[trigger] out.add(rest)[i] is Linebreak) by {
            if i < out.len() {
                assert(out.add(rest)[i] == out[i]);
            } else {
                assert(out.add(rest)[i] == rest[i - out.len()]);
            }
        }
    }
}

/// A document that is a `FlatIfPossible` group whose child holds no forced
/// break renders on a single line.
pub proof fn lemma_flat_if_possible_single_line<A>(c: DocTree<A>, s: LayoutSettings)
    requires
        flat_len(c) is Some,
    ensures
        no_linebreak(layout_events(DocTree::Group(GroupPolicy::FlatIfPossible, Box::new(c)), s)),
{
    let t = DocTree::Group(GroupPolicy::FlatIfPossible, Box::new(c));
    let r = layout_raw(t, s);
    lemma_flat_if_possible(c, 0, s.initial_mode, false, s, cook_init());
    lemma_cook_no_line(r, cook_init(), s);
    let lines = cook(r, cook_init(), s);
    let last = final_err::<A>(cook_final(r, cook_init(), s), s);
    assert forall|i: int| 0 <= i < lines.add(last).len() implies !(#[trigger] lines.add(last)[i] is Linebreak) by {
        if i < lines.len() {
            assert(lines.add(last)[i] == lines[i]);
        } else {
            assert(lines.add(last)[i] == last[i - lines.len()]);
        }
    }
}

/// Walks the annotation events of a stream from `d` open annotations: the
/// number open at the end, or `None` when a closing event finds none open.
pub open spec fn annotation_walk<A>(evs: Seq<EventModel<A>>, d: nat) -> Option<nat>
    decreases evs.len(),
{
    if evs.len() == 0 {
        Some(d)
    } else {
        match evs[0] {
            EventModel::PushAnnotation(_) => annotation_walk(evs.drop_first(), d + 1),
            EventModel::PopAnnotation => if d == 0 {
                None
            } else {
                annotation_walk(evs.drop_first(), (d - 1) as nat)
            },
            _ => annotation_walk(evs.drop_first(), d),
        }
    }
}

/// The annotations of a stream are well nested: each closing event closes
/// an open annotation, and none is left open.
pub open spec fn annotations_balanced<A>(evs: Seq<EventModel<A>>) -> bool {
    annotation_walk(evs, 0) == Some(0nat)
}

/// The same walk over raw events.
spec fn raw_walk<A>(evs: Seq<RawEvent<A>>, d: nat) -> Option<nat>
    decreases evs.len(),
{
    if evs.len() == 0 {
        Some(d)
    } else {
        match evs[0] {
            RawEvent::PushAnnotation(_) => raw_walk(evs.drop_first(), d + 1),
            RawEvent::PopAnnotation => if d == 0 {
                None
            } else {
                raw_walk(evs.drop_first(), (d - 1) as nat)
            },
            _ => raw_walk(evs.drop_first(), d),
        }
    }
}

proof fn lemma_annotation_walk_add<A>(a: Seq<EventModel<A>>, b: Seq<EventModel<A>>, d: nat)
    ensures
        annotation_walk(a.add(b), d) == (match annotation_walk(a, d) {
            Some(e) => annotation_walk(b, e),
            None => None,
        }),
    decreases a.len(),
{
    if a.len() > 0 {
        assert(a.add(b).drop_first() =~= a.drop_first().add(b));
        assert(a.add(b)[0] == a[0]);
        match a[0] {
            EventModel::PushAnnotation(_) => lemma_annotation_walk_add(a.drop_first(), b, d + 1),
            EventModel::PopAnnotation => if d > 0 {
                lemma_annotation_walk_add(a.drop_first(), b, (d - 1) as nat)
            },
            _ => lemma_annotation_walk_add(a.drop_first(), b, d),
        }
    } else {
        assert(a.add(b) =~= b);
    }
}

proof fn lemma_raw_walk_add<A>(a: Seq<RawEvent<A>>, b: Seq<RawEvent<A>>, d: nat)
    ensures
        raw_walk(a.add(b), d) == (match raw_walk(a, d) {
            Some(e) => raw_walk(b, e),
            None => None,
        }),
    decreases a.len(),
{
    if a.len() > 0 {
        assert(a.add(b).drop_first() =~= a.drop_first().add(b));
        assert(a.add(b)[0] == a[0]);
        match a[0] {
            RawEvent::PushAnnotation(_) => lemma_raw_walk_add(a.drop_first(), b, d + 1),
            RawEvent::PopAnnotation => if d > 0 {
                lemma_raw_walk_add(a.drop_first(), b, (d - 1) as nat)
            },
            _ => lemma_raw_walk_add(a.drop_first(), b, d),
        }
    } else {
        assert(a.add(b) =~= b);
    }
}

/// The pieces of a broken payload hold no annotation event.
proof fn lemma_raw_pieces_walk<A>(ps: Seq<crate::document::Piece>, indent: nat, d: nat)
    ensures
        raw_walk(raw_pieces::<A>(ps, indent), d) == Some(d),
    decreases ps.len(),
{
    if ps.len() > 0 {
        let evs = raw_pieces::<A>(ps, indent);
        assert(evs.drop_first() =~= raw_pieces::<A>(ps.drop_first(), indent));
        assert(evs[0] == piece_raw::<A>(ps[0], indent));
        lemma_raw_pieces_walk::<A>(ps.drop_first(), indent, d);
    }
}

/// The raw events of a document open and close its annotations in turn.
proof fn lemma_raw_walk<A>(t: DocTree<A>, indent: nat, mode: LayoutMode, ff: bool, s: LayoutSettings, st: CookState, d: nat)
    ensures
        raw_walk(raw(t, indent, mode, ff, s, st), d) == Some(d),
    decreases t,
{
    match t {
        DocTree::Text(x) => {
            let one = seq![RawEvent::<A>::Text(x)];
            assert(raw(t, indent, mode, ff, s, st) == one);
            assert(one.drop_first() =~= Seq::<RawEvent<A>>::empty());
            assert(raw_walk(Seq::<RawEvent<A>>::empty(), d) == Some(d));
            assert(raw_walk(one, d) == raw_walk(one.drop_first(), d));
        },
        DocTree::Break(f, ps) => {
            if mode == LayoutMode::Flat {
                assert(seq![RawEvent::<A>::Text(f)].drop_first() =~= Seq::<RawEvent<A>>::empty());
                assert(raw_walk(Seq::<RawEvent<A>>::empty(), d) == Some(d));
            } else {
                lemma_raw_pieces_walk::<A>(ps, indent, d);
            }
        },
        DocTree::HardLinebreak => {
            assert(seq![RawEvent::<A>::Line(indent)].drop_first() =~= Seq::<RawEvent<A>>::empty());
            assert(raw_walk(Seq::<RawEvent<A>>::empty(), d) == Some(d));
        },
        DocTree::Group(p, c) => {
            let (m, f) = group_child(p, *c, ff, s, st);
            lemma_raw_walk(*c, indent, m, f, s, st, d);
        },
        DocTree::Sequence(cs) => {
            lemma_raw_seq_walk(cs, indent, mode, ff, s, st, d);
        },
        DocTree::Nest(k, c) => {
            if mode == LayoutMode::Broken {
                let st1 = cook_step(RawEvent::<A>::NestIn(k), st, s).1;
                let inner = raw(*c, sat((indent + k) as nat), mode, ff, s, st1);
                lemma_raw_walk(*c, sat((indent + k) as nat), mode, ff, s, st1, d);
                let open = seq![RawEvent::<A>::NestIn(k)];
                let close = seq![RawEvent::<A>::NestOut(k)];
                assert(open.drop_first() =~= Seq::<RawEvent<A>>::empty());
                assert(close.drop_first() =~= Seq::<RawEvent<A>>::empty());
                assert(raw_walk(Seq::<RawEvent<A>>::empty(), d) == Some(d));
                assert(raw_walk(open, d) == Some(d));
                assert(raw_walk(close, d) == Some(d));
                lemma_raw_walk_add(open, inner, d);
                lemma_raw_walk_add(open.add(inner), close, d);
                assert(raw(t, indent, mode, ff, s, st) == open.add(inner).add(close));
            } else {
                lemma_raw_walk(*c, indent, mode, ff, s, st, d);
            }
        },
        DocTree::Annotation(a, c) => {
            let st1 = cook_step(RawEvent::PushAnnotation(a), st, s).1;
            let inner = raw(*c, indent, mode, ff, s, st1);
            lemma_raw_walk(*c, indent, mode, ff, s, st1, d + 1);
            let open = seq![RawEvent::PushAnnotation(a)];
            let close = seq![RawEvent::<A>::PopAnnotation];
            assert(open.drop_first() =~= Seq::<RawEvent<A>>::empty());
            assert(close.drop_first() =~= Seq::<RawEvent<A>>::empty());
            assert(raw_walk(Seq::<RawEvent<A>>::empty(), d + 1) == Some((d + 1) as nat));
            assert(raw_walk(Seq::<RawEvent<A>>::empty(), d) == Some(d));
            assert(raw_walk(open, d) == Some((d + 1) as nat));
            assert(raw_walk(close, d + 1) == Some(d));
            lemma_raw_walk_add(open, inner, d);
            lemma_raw_walk_add(open.add(inner), close, d);
            assert(raw(t, indent, mode, ff, s, st) == open.add(inner).add(close));
        },
        DocTree::Nil => {
            assert(raw_walk(Seq::<RawEvent<A>>::empty(), d) == Some(d));
        },
    }
    assert(raw_walk(raw(t, indent, mode, ff, s, st), d) == Some(d));
}

/// The sequence form of `lemma_raw_walk`.
proof fn lemma_raw_seq_walk<A>(cs: Seq<DocTree<A>>, indent: nat, mode: LayoutMode, ff: bool, s: LayoutSettings, st: CookState, d: nat)
    ensures
        raw_walk(raw_seq(cs, indent, mode, ff, s, st), d) == Some(d),
    decreases cs,
{
    if cs.len() > 0 {
        let tail = cs.subrange(1, cs.len() as int);
        let h = raw(cs[0], indent, mode, ff, s, st);
        let st1 = cook_final(h, st, s);
        lemma_raw_walk(cs[0], indent, mode, ff, s, st, d);
        lemma_raw_seq_walk(tail, indent, mode, ff, s, st1, d);
        lemma_raw_walk_add(h, raw_seq(tail, indent, mode, ff, s, st1), d);
    }
}

/// A stream without annotation events leaves the open annotations as they
/// are.
proof fn lemma_walk_plain<A>(evs: Seq<EventModel<A>>, d: nat)
    requires
        forall|i: int| 0 <= i < evs.len() ==> !(#[trigger] evs[i] is PushAnnotation) && !(evs[i] is PopAnnotation),
    ensures
        annotation_walk(evs, d) == Some(d),
    decreases evs.len(),
{
    if evs.len() > 0 {
        assert forall|i: int| 0 <= i < evs.drop_first().len() implies !(#[trigger] evs.drop_first()[i] is PushAnnotation) && !(evs.drop_first()[i] is PopAnnotation) by {
            assert(evs.drop_first()[i] == evs[i + 1]);
        }
        lemma_walk_plain(evs.drop_first(), d);
    }
}

/// The second stage keeps the annotation events of the raw events, in order.
proof fn lemma_cook_walk<A>(evs: Seq<RawEvent<A>>, st: CookState, s: LayoutSettings, d: nat)
    ensures
        annotation_walk(cook(evs, st, s), d) == raw_walk(evs, d),
    decreases evs.len(),
{
    if evs.len() > 0 {
        let (out, next) = cook_step(evs[0], st, s);
        let rest = cook(evs.drop_first(), next, s);
        lemma_annotation_walk_add(out, rest, d);
        match evs[0] {
            RawEvent::PushAnnotation(_) => {
                assert(out.drop_first() =~= Seq::<EventModel<A>>::empty());
                assert(annotation_walk(Seq::<EventModel<A>>::empty(), d + 1) == Some((d + 1) as nat));
                assert(annotation_walk(out, d) == Some((d + 1) as nat));
                lemma_cook_walk(evs.drop_first(), next, s, d + 1);
            },
            RawEvent::PopAnnotation => {
                assert(out.drop_first() =~= Seq::<EventModel<A>>::empty());
                if d > 0 {
                    assert(annotation_walk(Seq::<EventModel<A>>::empty(), (d - 1) as nat) == Some((d - 1) as nat));
                    lemma_cook_walk(evs.drop_first(), next, s, (d - 1) as nat);
                }
            },
            _ => {
                assert forall|i: int| 0 <= i < out.len() implies !(#[trigger] out[i] is PushAnnotation) && !(out[i] is PopAnnotation) by {}
                lemma_walk_plain(out, d);
                lemma_cook_walk(evs.drop_first(), next, s, d);
            },
        }
    }
}

/// The annotations of every layout are well nested: each `PopAnnotation`
/// closes the most recent open `PushAnnotation`, and none is left open.
pub proof fn lemma_layout_annotations_balanced<A>(t: DocTree<A>, s: LayoutSettings)
    ensures
        annotations_balanced(layout_events(t, s)),
{
    let r = layout_raw(t, s);
    let last = final_err::<A>(cook_final(r, cook_init(), s), s);
    lemma_raw_walk(t, 0, s.initial_mode, false, s, cook_init(), 0);
    lemma_cook_walk(r, cook_init(), s, 0);
    lemma_annotation_walk_add(cook(r, cook_init(), s), last, 0);
    assert forall|i: int| 0 <= i < last.len() implies !(#[trigger] last[i] is PushAnnotation) && !(last[i] is PopAnnotation) by {}
    lemma_walk_plain(last, 0);
}

/// Two raw events are alike: equal, or both opening an annotation.
pub open spec fn raw_alike<A>(x: RawEvent<A>, y: RawEvent<A>) -> bool {
    x == y || (x is PushAnnotation && y is PushAnnotation)
}

/// Two lists of raw events are alike, one for one.
pub open spec fn raws_alike<A>(a: Seq<RawEvent<A>>, b: Seq<RawEvent<A>>) -> bool {
    &&& a.len() == b.len()
    &&& forall|i: int| 0 <= i < a.len() ==> raw_alike(#[trigger] a[i], b[i])
}

/// Two render events are alike: equal, or both opening an annotation.
pub open spec fn event_alike<A>(x: EventModel<A>, y: EventModel<A>) -> bool {
    x == y || (x is PushAnnotation && y is PushAnnotation)
}

/// Two render event streams are alike, one for one: they differ at most in
/// the values of annotations.
pub open spec fn events_alike<A>(a: Seq<EventModel<A>>, b: Seq<EventModel<A>>) -> bool {
    &&& a.len() == b.len()
    &&& forall|i: int| 0 <= i < a.len() ==> event_alike(#[trigger] a[i], b[i])
}

proof fn lemma_raws_alike_add<A>(a1: Seq<RawEvent<A>>, b1: Seq<RawEvent<A>>, a2: Seq<RawEvent<A>>, b2: Seq<RawEvent<A>>)
    requires
        raws_alike(a1, b1),
        raws_alike(a2, b2),
    ensures
        raws_alike(a1.add(a2), b1.add(b2)),
{
    assert forall|i: int| 0 <= i < a1.add(a2).len() implies raw_alike(#[trigger] a1.add(a2)[i], b1.add(b2)[i]) by {
        if i < a1.len() {
            assert(raw_alike(a1[i], b1[i]));
        } else {
            assert(raw_alike(a2[i - a1.len()], b2[i - a1.len()]));
        }
    }
}

proof fn lemma_events_alike_add<A>(a1: Seq<EventModel<A>>, b1: Seq<EventModel<A>>, a2: Seq<EventModel<A>>, b2: Seq<EventModel<A>>)
    requires
        events_alike(a1, b1),
        events_alike(a2, b2),
    ensures
        events_alike(a1.add(a2), b1.add(b2)),
{
    assert forall|i: int| 0 <= i < a1.add(a2).len() implies event_alike(#[trigger] a1.add(a2)[i], b1.add(b2)[i]) by {
        if i < a1.len() {
            assert(event_alike(a1[i], b1[i]));
        } else {
            assert(event_alike(a2[i - a1.len()], b2[i - a1.len()]));
        }
    }
}

/// Copies one for one: each document of `ys` is a copy of the one of `xs`
/// at its index.
pub proof fn lemma_cloned_seq_each<A: Clone>(xs: Seq<DocTree<A>>, ys: Seq<DocTree<A>>)
    requires
        cloned_seq(xs, ys),
    ensures
        xs.len() == ys.len(),
        forall|i: int| 0 <= i < xs.len() ==> cloned_tree(#[trigger] xs[i], ys[i]),
    decreases xs.len(),
{
    if xs.len() > 0 {
        let xd = xs.subrange(0, xs.len() - 1);
        let yd = ys.subrange(0, ys.len() - 1);
        lemma_cloned_seq_each(xd, yd);
        assert forall|i: int| 0 <= i < xs.len() implies cloned_tree(#[trigger] xs[i], ys[i]) by {
            if i < xs.len() - 1 {
                assert(xs[i] == xd[i]);
                assert(ys[i] == yd[i]);
            }
        }
    }
}

/// A copy of a document walks alike: from the same state, its raw events
/// are alike.
proof fn lemma_raw_cloned<A: Clone>(t: DocTree<A>, c: DocTree<A>, indent: nat, mode: LayoutMode, ff: bool, s: LayoutSettings, st: CookState)
    requires
        cloned_tree(t, c),
    ensures
        raws_alike(raw(t, indent, mode, ff, s, st), raw(c, indent, mode, ff, s, st)),
    decreases t,
{
    match t {
        DocTree::Group(p, x) => {
            let y = *c->Group_1;
            lemma_cloned_tree(*x, y);
            let (m, f) = group_child(p, *x, ff, s, st);
            assert(group_child(p, y, ff, s, st) == (m, f));
            lemma_raw_cloned(*x, y, indent, m, f, s, st);
        },
        DocTree::Sequence(xs) => {
            let ys = c->Sequence_0;
            lemma_cloned_seq_each(xs, ys);
            lemma_raw_seq_cloned(xs, ys, indent, mode, ff, s, st);
        },
        DocTree::Nest(k, x) => {
            let y = *c->Nest_1;
            if mode == LayoutMode::Broken {
                let st1 = cook_step(RawEvent::<A>::NestIn(k), st, s).1;
                lemma_raw_cloned(*x, y, sat((indent + k) as nat), mode, ff, s, st1);
                let open = seq![RawEvent::<A>::NestIn(k)];
                let close = seq![RawEvent::<A>::NestOut(k)];
                lemma_raws_alike_add(open, open, raw(*x, sat((indent + k) as nat), mode, ff, s, st1), raw(y, sat((indent + k) as nat), mode, ff, s, st1));
                lemma_raws_alike_add(
                    open.add(raw(*x, sat((indent + k) as nat), mode, ff, s, st1)),
                    open.add(raw(y, sat((indent + k) as nat), mode, ff, s, st1)),
                    close,
                    close,
                );
            } else {
                lemma_raw_cloned(*x, y, indent, mode, ff, s, st);
            }
        },
        DocTree::Annotation(a, x) => {
            let b = c->Annotation_0;
            let y = *c->Annotation_1;
            let st1 = cook_step(RawEvent::PushAnnotation(a), st, s).1;
            assert(cook_step(RawEvent::PushAnnotation(b), st, s).1 == st1);
            lemma_raw_cloned(*x, y, indent, mode, ff, s, st1);
            let close = seq![RawEvent::<A>::PopAnnotation];
            lemma_raws_alike_add(
                seq![RawEvent::PushAnnotation(a)],
                seq![RawEvent::PushAnnotation(b)],
                raw(*x, indent, mode, ff, s, st1),
                raw(y, indent, mode, ff, s, st1),
            );
            lemma_raws_alike_add(
                seq![RawEvent::PushAnnotation(a)].add(raw(*x, indent, mode, ff, s, st1)),
                seq![RawEvent::PushAnnotation(b)].add(raw(y, indent, mode, ff, s, st1)),
                close,
                close,
            );
        },
        _ => {},
    }
}

/// The sequence form of `lemma_raw_cloned`.
proof fn lemma_raw_seq_cloned<A: Clone>(xs: Seq<DocTree<A>>, ys: Seq<DocTree<A>>, indent: nat, mode: LayoutMode, ff: bool, s: LayoutSettings, st: CookState)
    requires
        xs.len() == ys.len(),
        forall|i: int| 0 <= i < xs.len() ==> cloned_tree(#[trigger] xs[i], ys[i]),
    ensures
        raws_alike(raw_seq(xs, indent, mode, ff, s, st), raw_seq(ys, indent, mode, ff, s, st)),
    decreases xs,
{
    if xs.len() > 0 {
        let xt = xs.subrange(1, xs.len() as int);
        let yt = ys.subrange(1, ys.len() as int);
        assert(cloned_tree(xs[0], ys[0]));
        lemma_raw_cloned(xs[0], ys[0], indent, mode, ff, s, st);
        let hx = raw(xs[0], indent, mode, ff, s, st);
        let hy = raw(ys[0], indent, mode, ff, s, st);
        lemma_cook_alike(hx, hy, st, s);
        let st1 = cook_final(hx, st, s);
        assert forall|i: int| 0 <= i < xt.len() implies cloned_tree(#[trigger] xt[i], yt[i]) by {
            assert(xt[i] == xs[i + 1]);
            assert(yt[i] == ys[i + 1]);
        }
        lemma_raw_seq_cloned(xt, yt, indent, mode, ff, s, st1);
        lemma_raws_alike_add(hx, hy, raw_seq(xt, indent, mode, ff, s, st1), raw_seq(yt, indent, mode, ff, s, st1));
    }
}

/// Alike raw events cook alike, and leave the same state.
proof fn lemma_cook_alike<A>(a: Seq<RawEvent<A>>, b: Seq<RawEvent<A>>, st: CookState, s: LayoutSettings)
    requires
        raws_alike(a, b),
    ensures
        events_alike(cook(a, st, s), cook(b, st, s)),
        cook_final(a, st, s) == cook_final(b, st, s),
    decreases a.len(),
{
    if a.len() > 0 {
        let (oa, na) = cook_step(a[0], st, s);
        let (ob, nb) = cook_step(b[0], st, s);
        assert(raw_alike(a[0], b[0]));
        assert(na == nb);
        assert(events_alike(oa, ob));
        assert(raws_alike(a.drop_first(), b.drop_first())) by {
            assert forall|i: int| 0 <= i < a.drop_first().len() implies raw_alike(#[trigger] a.drop_first()[i], b.drop_first()[i]) by {
                assert(raw_alike(a[i + 1], b[i + 1]));
            }
        }
        lemma_cook_alike(a.drop_first(), b.drop_first(), na, s);
        lemma_events_alike_add(oa, ob, cook(a.drop_first(), na, s), cook(b.drop_first(), nb, s));
    }
}

/// Alike event streams render to the same plain text.
proof fn lemma_plaintext_alike<A>(a: Seq<EventModel<A>>, b: Seq<EventModel<A>>)
    requires
        events_alike(a, b),
    ensures
        plaintext(a) == plaintext(b),
    decreases a.len(),
{
    if a.len() > 0 {
        assert(event_alike(a[0], b[0]));
        assert(events_alike(a.drop_first(), b.drop_first())) by {
            assert forall|i: int| 0 <= i < a.drop_first().len() implies event_alike(#[trigger] a.drop_first()[i], b.drop_first()[i]) by {
                assert(event_alike(a[i + 1], b[i + 1]));
            }
        }
        lemma_plaintext_alike(a.drop_first(), b.drop_first());
    }
}

/// A copy of a document (annotations cloned) lays out alike: the same
/// events but for the values of annotations, and the same plain text.
pub proof fn lemma_copy_lays_out_alike<A: Clone>(t: DocTree<A>, c: DocTree<A>, s: LayoutSettings)
    requires
        cloned_tree(t, c),
    ensures
        events_alike(layout_events(t, s), layout_events(c, s)),
        plaintext(layout_events(t, s)) == plaintext(layout_events(c, s)),
{
    let rt = layout_raw(t, s);
    let rc = layout_raw(c, s);
    lemma_raw_cloned(t, c, 0, s.initial_mode, false, s, cook_init());
    lemma_cook_alike(rt, rc, cook_init(), s);
    let last = final_err::<A>(cook_final(rt, cook_init(), s), s);
    assert(events_alike(last, last)) by {
        assert forall|i: int| 0 <= i < last.len() implies event_alike(#[trigger] last[i], last[i]) by {}
    }
    lemma_events_alike_add(cook(rt, cook_init(), s), cook(rc, cook_init(), s), last, last);
    lemma_plaintext_alike(layout_events(t, s), layout_events(c, s));
}

/// The text that a leaf document displays: its text, a newline, or nothing.
pub open spec fn leaf_text<A>(t: DocTree<A>) -> Seq<char> {
    match t {
        DocTree::Text(x) => x,
        DocTree::HardLinebreak => seq!['\n'],
        _ => seq![],
    }
}

/// The texts of a list of leaf documents, one after another.
pub open spec fn leaves_text<A>(cs: Seq<DocTree<A>>) -> Seq<char>
    decreases cs.len(),
{
    if cs.len() == 0 {
        seq![]
    } else {
        leaves_text(cs.drop_last()).add(leaf_text(cs.last()))
    }
}

/// The text of the pieces of literal text: each piece of text whose display
/// width is not zero, and a newline (`'\n'`) for each newline sequence.
pub open spec fn pieces_text(ps: Seq<Piece>) -> Seq<char>
    decreases ps.len(),
{
    if ps.len() == 0 {
        seq![]
    } else {
        pieces_text(ps.drop_last()).add(piece_text(ps.last()))
    }
}

/// The text of a piece: its text when its display width is not zero, or a
/// newline.
pub open spec fn piece_text(p: Piece) -> Seq<char> {
    match p {
        Piece::Text(x) => if width_of(x) > 0 {
            x
        } else {
            seq![]
        },
        Piece::Linebreak => seq!['\n'],
    }
}

/// A document of literal text: text of non-zero width or a hard linebreak.
spec fn text_leaf<A>(t: DocTree<A>) -> bool {
    (t matches DocTree::Text(x) && width_of(x) > 0) || t is HardLinebreak
}

/// The raw event of such a leaf, at indentation zero.
spec fn leaf_raw<A>(t: DocTree<A>) -> RawEvent<A> {
    match t {
        DocTree::Text(x) => RawEvent::Text(x),
        _ => RawEvent::Line(0),
    }
}

/// The raw events of such leaves, the first first.
spec fn leaf_raws<A>(cs: Seq<DocTree<A>>) -> Seq<RawEvent<A>>
    decreases cs.len(),
{
    if cs.len() == 0 {
        seq![]
    } else {
        seq![leaf_raw(cs[0])].add(leaf_raws(cs.subrange(1, cs.len() as int)))
    }
}

/// The texts of leaves, taken from the front.
proof fn lemma_leaves_text_front<A>(cs: Seq<DocTree<A>>)
    requires
        cs.len() > 0,
    ensures
        leaves_text(cs) == leaf_text(cs[0]).add(leaves_text(cs.subrange(1, cs.len() as int))),
    decreases cs.len(),
{
    let tail = cs.subrange(1, cs.len() as int);
    if cs.len() == 1 {
        assert(cs.drop_last() =~= Seq::<DocTree<A>>::empty());
        assert(tail =~= Seq::<DocTree<A>>::empty());
        assert(leaf_text(cs[0]).add(Seq::<char>::empty()) =~= leaf_text(cs[0]));
        assert(Seq::<char>::empty().add(leaf_text(cs[0])) =~= leaf_text(cs[0]));
    } else {
        lemma_leaves_text_front(cs.drop_last());
        assert(cs.drop_last().subrange(1, cs.len() - 1) =~= tail.drop_last());
        assert(cs.drop_last()[0] == cs[0]);
        assert(tail.last() == cs.last());
        assert(leaf_text(cs[0]).add(leaves_text(tail.drop_last())).add(leaf_text(cs.last()))
            =~= leaf_text(cs[0]).add(leaves_text(tail.drop_last()).add(leaf_text(tail.last()))));
    }
}

/// Dropping the `Nil` documents changes no text.
proof fn lemma_leaves_non_nil<A>(cs: Seq<DocTree<A>>)
    ensures
        leaves_text(non_nil(cs)) == leaves_text(cs),
        (forall|i: int| 0 <= i < cs.len() ==> #[trigger] cs[i] is Nil || text_leaf(cs[i]))
            ==> forall|i: int| 0 <= i < non_nil(cs).len() ==> text_leaf(#[trigger] non_nil(cs)[i]),
    decreases cs.len(),
{
    if cs.len() > 0 {
        let d = cs.drop_last();
        lemma_leaves_non_nil(d);
        if forall|i: int| 0 <= i < cs.len() ==> #[trigger] cs[i] is Nil || text_leaf(cs[i]) {
            assert forall|i: int| 0 <= i < d.len() implies #[trigger] d[i] is Nil || text_leaf(d[i]) by {
                assert(d[i] == cs[i]);
            }
        }
        if cs.last() is Nil {
            assert(leaves_text(d).add(leaf_text(cs.last())) =~= leaves_text(d));
        } else {
            let k = non_nil(d);
            assert(k.push(cs.last()).drop_last() =~= k);
            assert(k.push(cs.last()).last() == cs.last());
            if forall|i: int| 0 <= i < cs.len() ==> #[trigger] cs[i] is Nil || text_leaf(cs[i]) {
                assert(cs[cs.len() - 1] is Nil || text_leaf(cs[cs.len() - 1]));
                assert forall|i: int| 0 <= i < k.push(cs.last()).len() implies text_leaf(#[trigger] k.push(cs.last())[i]) by {
                    if i < k.len() {
                        assert(k.push(cs.last())[i] == k[i]);
                    }
                }
            }
        }
    }
}

/// The documents of the pieces of literal text display the pieces' text.
proof fn lemma_text_trees_text<A>(ps: Seq<Piece>)
    ensures
        leaves_text(text_trees::<A>(ps)) == pieces_text(ps),
        forall|i: int| 0 <= i < ps.len() ==> #[trigger] text_trees::<A>(ps)[i] is Nil || text_leaf(text_trees::<A>(ps)[i]),
    decreases ps.len(),
{
    if ps.len() > 0 {
        lemma_text_trees_text::<A>(ps.drop_last());
        assert(text_trees::<A>(ps).drop_last() =~= text_trees::<A>(ps.drop_last()));
        assert(text_trees::<A>(ps).last() == piece_tree::<A>(ps.last()));
    }
}

/// The raw events of a sequence of such leaves, wherever it starts.
proof fn lemma_leaf_raws<A>(cs: Seq<DocTree<A>>, mode: LayoutMode, ff: bool, s: LayoutSettings, st: CookState)
    requires
        forall|i: int| 0 <= i < cs.len() ==> text_leaf(#[trigger] cs[i]),
    ensures
        raw_seq(cs, 0, mode, ff, s, st) == leaf_raws(cs),
    decreases cs.len(),
{
    if cs.len() > 0 {
        let tail = cs.subrange(1, cs.len() as int);
        assert(text_leaf(cs[0]));
        let h = raw(cs[0], 0, mode, ff, s, st);
        assert(h == seq![leaf_raw(cs[0])]);
        assert forall|i: int| 0 <= i < tail.len() implies text_leaf(#[trigger] tail[i]) by {
            assert(tail[i] == cs[i + 1]);
        }
        lemma_leaf_raws(tail, mode, ff, s, cook_final(h, st, s));
    }
}

/// Under a relaxed constraint, the raw events of such leaves, from a state
/// with no padding held back, render to their texts.
proof fn lemma_leaf_raws_render<A>(cs: Seq<DocTree<A>>, st: CookState, s: LayoutSettings)
    requires
        forall|i: int| 0 <= i < cs.len() ==> text_leaf(#[trigger] cs[i]),
        st.pending == 0,
        s.width_constraint == LayoutWidthConstraint::Relaxed,
    ensures
        plaintext(cook(leaf_raws(cs), st, s)) == Ok::<Seq<char>, (nat, nat, nat)>(leaves_text(cs)),
    decreases cs.len(),
{
    if cs.len() == 0 {
        assert(cook(leaf_raws(cs), st, s) =~= Seq::<EventModel<A>>::empty());
    } else {
        let tail = cs.subrange(1, cs.len() as int);
        let e = leaf_raw(cs[0]);
        let (out, st1) = cook_step(e, st, s);
        assert(text_leaf(cs[0]));
        assert forall|i: int| 0 <= i < tail.len() implies text_leaf(#[trigger] tail[i]) by {
            assert(tail[i] == cs[i + 1]);
        }
        lemma_leaf_raws_render(tail, st1, s);
        lemma_leaves_text_front(cs);
        let rest = leaf_raws(tail);
        assert((seq![e].add(rest)).drop_first() =~= rest);
        assert(cook(leaf_raws(cs), st, s) == out.add(cook(rest, st1, s)));
        assert(out.len() == 1);
        assert(!(out[0] is Error));
        assert(event_text(out[0]) == leaf_text(cs[0]));
        let all = out.add(cook(rest, st1, s));
        assert(all[0] == out[0]);
        assert(all.drop_first() =~= cook(rest, st1, s));
    }
}

/// Rendering literal text gives its text back: under a relaxed constraint,
/// the document that the text constructors make of the pieces of literal
/// text renders to the pieces' text, each newline sequence as `'\n'` (a
/// piece of zero display width displays nothing).
pub proof fn lemma_text_renders_back<A>(ps: Seq<Piece>, s: LayoutSettings)
    requires
        s.width_constraint == LayoutWidthConstraint::Relaxed,
    ensures
        plaintext(layout_events(sequence_tree(text_trees::<A>(ps)), s)) == Ok::<Seq<char>, (nat, nat, nat)>(
            pieces_text(ps),
        ),
{
    let ts = text_trees::<A>(ps);
    let kept = non_nil(ts);
    let t = sequence_tree(ts);
    lemma_text_trees_text::<A>(ps);
    lemma_leaves_non_nil(ts);
    lemma_non_nil(ts);
    lemma_leaf_raws(kept, s.initial_mode, false, s, cook_init());
    let r = layout_raw(t, s);
    assert(r == leaf_raws(kept)) by {
        if kept.len() == 0 {
            assert(leaf_raws(kept) =~= Seq::<RawEvent<A>>::empty());
        } else if kept.len() == 1 {
            let h = raw(kept[0], 0, s.initial_mode, false, s, cook_init());
            assert(t == kept[0]);
            assert(kept.subrange(1, 1) =~= Seq::<DocTree<A>>::empty());
            assert(raw_seq(kept.subrange(1, 1), 0, s.initial_mode, false, s, cook_final(h, cook_init(), s)) == Seq::<RawEvent<A>>::empty());
            assert(h.add(Seq::<RawEvent<A>>::empty()) =~= h);
            assert(raw_seq(kept, 0, s.initial_mode, false, s, cook_init()) == h);
        } else {
            assert(t == DocTree::Sequence(kept));
        }
    }
    lemma_leaf_raws_render(kept, cook_init(), s);
    assert(final_err::<A>(cook_final(r, cook_init(), s), s) =~= Seq::<EventModel<A>>::empty());
    assert(layout_events(t, s) =~= cook(r, cook_init(), s));
}

/// A line's text when its display width is not zero, else nothing.
pub open spec fn visible(x: Seq<char>) -> Seq<char> {
    if width_of(x) > 0 {
        x
    } else {
        seq![]
    }
}

/// The lines of a text (as bytes) joined with `'\n'`, each line that
/// displays nothing left empty.
pub open spec fn lines_text(lines: Seq<Seq<u8>>) -> Seq<char>
    decreases lines.len(),
{
    if lines.len() == 0 {
        seq![]
    } else if lines.len() == 1 {
        visible(decode_utf8(lines[0]))
    } else {
        lines_text(lines.drop_last()).add(seq!['\n']).add(visible(decode_utf8(lines.last())))
    }
}

/// The text of two lists of pieces is the text of the first, then that of
/// the second.
proof fn lemma_pieces_text_add(a: Seq<Piece>, b: Seq<Piece>)
    ensures
        pieces_text(a.add(b)) == pieces_text(a).add(pieces_text(b)),
    decreases b.len(),
{
    if b.len() == 0 {
        assert(a.add(b) =~= a);
        assert(pieces_text(a).add(Seq::<char>::empty()) =~= pieces_text(a));
    } else {
        lemma_pieces_text_add(a, b.drop_last());
        assert(a.add(b).drop_last() =~= a.add(b.drop_last()));
        assert(a.add(b).last() == b.last());
        assert(pieces_text(a).add(pieces_text(b.drop_last())).add(piece_text(b.last()))
            =~= pieces_text(a).add(pieces_text(b.drop_last()).add(piece_text(b.last()))));
    }
}

/// The text of the pieces of a text's lines is the lines joined with
/// `'\n'`.
proof fn lemma_pieces_lines(lines: Seq<Seq<u8>>)
    ensures
        pieces_text(text_pieces(lines)) == lines_text(lines),
    decreases lines.len(),
{
    if lines.len() == 1 {
        let p = seq![Piece::Text(decode_utf8(lines[0]))];
        assert(text_pieces(lines) == p);
        assert(p.drop_last() =~= Seq::<Piece>::empty());
        assert(p.last() == Piece::Text(decode_utf8(lines[0])));
        assert(piece_text(p.last()) == visible(decode_utf8(lines[0])));
        assert(Seq::<char>::empty().add(visible(decode_utf8(lines[0]))) =~= visible(decode_utf8(lines[0])));
        assert(pieces_text(p) == pieces_text(p.drop_last()).add(piece_text(p.last())));
        assert(pieces_text(Seq::<Piece>::empty()) == Seq::<char>::empty());
        assert(pieces_text(p) =~= visible(decode_utf8(lines[0])));
    } else if lines.len() > 1 {
        let l = decode_utf8(lines.last());
        let prev = text_pieces(lines.drop_last());
        let lb = seq![Piece::Linebreak];
        let last: Seq<Piece> = if width_of(l) > 0 { seq![Piece::Text(l)] } else { seq![] };
        lemma_pieces_lines(lines.drop_last());
        lemma_pieces_text_add(prev, lb);
        lemma_pieces_text_add(prev.add(lb), last);
        assert(lb.drop_last() =~= Seq::<Piece>::empty());
        assert(lb.last() == Piece::Linebreak);
        assert(Seq::<char>::empty().add(seq!['\n']) =~= seq!['\n']);
        assert(pieces_text(Seq::<Piece>::empty()) == Seq::<char>::empty());
        assert(piece_text(Piece::Linebreak) == seq!['\n']);
        assert(pieces_text(lb) == pieces_text(lb.drop_last()).add(piece_text(lb.last())));
        assert(pieces_text(lb) =~= seq!['\n']);
        if width_of(l) > 0 {
            assert(last.drop_last() =~= Seq::<Piece>::empty());
            assert(last.last() == Piece::Text(l));
            assert(Seq::<char>::empty().add(l) =~= l);
            assert(pieces_text(last) =~= visible(l));
        } else {
            assert(pieces_text(last) =~= visible(l));
        }
        assert(text_pieces(lines) == prev.add(lb).add(last));
        assert(pieces_text(prev.add(lb)) == lines_text(lines.drop_last()).add(seq!['\n']));
        assert(pieces_text(text_pieces(lines)) == lines_text(lines.drop_last()).add(seq!['\n']).add(visible(l)));
        assert(lines_text(lines) == lines_text(lines.drop_last()).add(seq!['\n']).add(visible(l)));
    } else {
        assert(text_pieces(lines) =~= Seq::<Piece>::empty());
        assert(lines_text(lines) =~= Seq::<char>::empty());
    }
}

/// Rendering the document of a literal text gives the text back: under a
/// relaxed constraint, the text's lines (split at its newline sequences)
/// joined with `'\n'`; a line that displays nothing (display width zero)
/// comes out empty.
pub proof fn lemma_from_text_renders_back<A>(x: Seq<char>, s: LayoutSettings)
    requires
        s.width_constraint == LayoutWidthConstraint::Relaxed,
    ensures
        plaintext(layout_events(sequence_tree(text_trees::<A>(text_to_pieces(x))), s))
            == Ok::<Seq<char>, (nat, nat, nat)>(lines_text(split_lines(encode_utf8(x)))),
{
    lemma_text_renders_back::<A>(text_to_pieces(x), s);
    lemma_pieces_lines(split_lines(encode_utf8(x)));
}

/// The sum of the flat lengths of the children (a child that must break
/// counts nothing).
pub open spec fn flat_sum<A>(cs: Seq<DocTree<A>>) -> nat
    decreases cs.len(),
{
    if cs.len() == 0 {
        0
    } else {
        flat_sum(cs.subrange(0, cs.len() - 1)) + match flat_len(cs[cs.len() - 1]) {
            Some(n) => n,
            None => 0,
        }
    }
}

/// The break status of a sequence: it must break exactly when some child
/// must; otherwise its flat length is the sum of its children's (zero for
/// no child). It is observable exactly when some child is, under the
/// `Normal` policy.
pub proof fn lemma_sequence_status<A>(cs: Seq<DocTree<A>>)
    ensures
        flat_len_seq(cs) is None <==> exists|i: int| 0 <= i < cs.len() && #[trigger] flat_len(cs[i]) is None,
        flat_len_seq(cs) is Some ==> flat_len_seq(cs) == Some(flat_sum(cs)),
        any_observable(cs) <==> exists|i: int| 0 <= i < cs.len() && #[trigger] observable(cs[i], GroupPolicy::Normal),
    decreases cs.len(),
{
    if cs.len() > 0 {
        let d = cs.subrange(0, cs.len() - 1);
        let last = cs.len() - 1;
        let x = cs[last];
        lemma_sequence_status(d);
        assert(flat_len_seq(cs) == add_status(flat_len_seq(d), flat_len(x)));
        assert(any_observable(cs) == (any_observable(d) || observable(x, GroupPolicy::Normal)));
        assert(flat_sum(cs) == flat_sum(d) + match flat_len(x) {
            Some(n) => n,
            None => 0,
        });
        assert forall|i: int| 0 <= i < d.len() implies #[trigger] d[i] == cs[i] by {}
        if flat_len_seq(cs) is None {
            if flat_len(x) is None {
                assert(flat_len(cs[last]) is None);
            } else {
                let i = choose|i: int| 0 <= i < d.len() && #[trigger] flat_len(d[i]) is None;
                assert(flat_len(cs[i]) is None);
            }
        } else {
            assert forall|i: int| 0 <= i < cs.len() implies !(#[trigger] flat_len(cs[i]) is None) by {
                if i < last {
                    assert(cs[i] == d[i]);
                }
            }
        }
        if any_observable(cs) {
            if observable(x, GroupPolicy::Normal) {
                assert(observable(cs[last], GroupPolicy::Normal));
            } else {
                let i = choose|i: int| 0 <= i < d.len() && #[trigger] observable(d[i], GroupPolicy::Normal);
                assert(observable(cs[i], GroupPolicy::Normal));
            }
        } else {
            assert forall|i: int| 0 <= i < cs.len() implies !#[trigger] observable(cs[i], GroupPolicy::Normal) by {
                if i < last {
                    assert(cs[i] == d[i]);
                }
            }
        }
    }
}

/// What `sequence` makes of children that are all nil is nil, and of
/// children of which exactly one is not nil, that one: so a grouped
/// sequence of such children is the group over nil, or over that child.
pub proof fn lemma_sequence_tree_shape<A>(cs: Seq<DocTree<A>>, j: int)
    ensures
        (forall|i: int| 0 <= i < cs.len() ==> #[trigger] cs[i] is Nil) ==> sequence_tree(cs) == DocTree::<A>::Nil,
        0 <= j < cs.len() && !(cs[j] is Nil) && (forall|i: int| 0 <= i < cs.len() && i != j ==> #[trigger] cs[i] is Nil)
            ==> sequence_tree(cs) == cs[j],
{
    if forall|i: int| 0 <= i < cs.len() ==> #[trigger] cs[i] is Nil {
        lemma_non_nil_of_nils(cs);
    }
    if 0 <= j < cs.len() && !(cs[j] is Nil) && (forall|i: int| 0 <= i < cs.len() && i != j ==> #[trigger] cs[i] is Nil) {
        lemma_non_nil_of_one(cs, j);
    }
}

/// Dropping the nil children of nil children leaves none.
proof fn lemma_non_nil_of_nils<A>(cs: Seq<DocTree<A>>)
    requires
        forall|i: int| 0 <= i < cs.len() ==> #[trigger] cs[i] is Nil,
    ensures
        non_nil(cs).len() == 0,
    decreases cs.len(),
{
    if cs.len() > 0 {
        let d = cs.drop_last();
        assert forall|i: int| 0 <= i < d.len() implies #[trigger] d[i] is Nil by {
            assert(d[i] == cs[i]);
        }
        lemma_non_nil_of_nils(d);
    }
}

/// Dropping the nil children leaves the only other one.
proof fn lemma_non_nil_of_one<A>(cs: Seq<DocTree<A>>, j: int)
    requires
        0 <= j < cs.len(),
        !(cs[j] is Nil),
        forall|i: int| 0 <= i < cs.len() && i != j ==> #[trigger] cs[i] is Nil,
    ensures
        non_nil(cs) == seq![cs[j]],
    decreases cs.len(),
{
    let d = cs.drop_last();
    if j == cs.len() - 1 {
        assert forall|i: int| 0 <= i < d.len() implies #[trigger] d[i] is Nil by {
            assert(d[i] == cs[i]);
        }
        lemma_non_nil_of_nils(d);
        assert(non_nil(cs) =~= seq![cs[j]]);
    } else {
        assert forall|i: int| 0 <= i < d.len() && i != j implies #[trigger] d[i] is Nil by {
            assert(d[i] == cs[i]);
        }
        assert(d[j] == cs[j]);
        lemma_non_nil_of_one(d, j);
        assert(cs[cs.len() - 1] is Nil);
    }
}

/// The number of newline pieces.
pub open spec fn linebreak_count(ps: Seq<Piece>) -> nat
    decreases ps.len(),
{
    if ps.len() == 0 {
        0
    } else {
        linebreak_count(ps.drop_last()) + if ps.last() == Piece::Linebreak {
            1nat
        } else {
            0nat
        }
    }
}

/// The number of newline pieces of a concatenation.
proof fn lemma_linebreak_count_add(a: Seq<Piece>, b: Seq<Piece>)
    ensures
        linebreak_count(a.add(b)) == linebreak_count(a) + linebreak_count(b),
    decreases b.len(),
{
    if b.len() > 0 {
        lemma_linebreak_count_add(a, b.drop_last());
        assert(a.add(b).drop_last() =~= a.add(b.drop_last()));
    }
}

/// The pieces of text split into lines: a newline piece between each two
/// lines, and each text piece one of the lines.
proof fn lemma_text_pieces_count(lines: Seq<Seq<u8>>)
    requires
        lines.len() >= 1,
    ensures
        linebreak_count(text_pieces(lines)) + 1 == lines.len(),
        forall|i: int| 0 <= i < text_pieces(lines).len() ==> (#[trigger] text_pieces(lines)[i] matches Piece::Text(x)
            ==> exists|k: int| 0 <= k < lines.len() && x == decode_utf8(#[trigger] lines[k])),
    decreases lines.len(),
{
    if lines.len() == 1 {
        let one = seq![Piece::Text(decode_utf8(lines[0]))];
        assert(text_pieces(lines) == one);
        assert(one.drop_last() =~= Seq::<Piece>::empty());
        assert(linebreak_count(one) == linebreak_count(one.drop_last()));
    } else {
        let d = lines.drop_last();
        lemma_text_pieces_count(d);
        let prev = text_pieces(d);
        let l = decode_utf8(lines.last());
        let tail: Seq<Piece> = if crate::document::display_width(l) > 0 {
            seq![Piece::Text(l)]
        } else {
            seq![]
        };
        assert(text_pieces(lines) == prev.add(seq![Piece::Linebreak]).add(tail));
        lemma_linebreak_count_add(prev, seq![Piece::Linebreak]);
        lemma_linebreak_count_add(prev.add(seq![Piece::Linebreak]), tail);
        let lb = seq![Piece::Linebreak];
        assert(lb.drop_last() =~= Seq::<Piece>::empty());
        assert(linebreak_count(Seq::<Piece>::empty()) == 0);
        assert(linebreak_count(lb) == 1);
        if tail.len() > 0 {
            assert(tail.drop_last() =~= Seq::<Piece>::empty());
            assert(tail.last() == Piece::Text(l));
        }
        assert(linebreak_count(tail) == 0);
        let all = text_pieces(lines);
        assert forall|i: int| 0 <= i < all.len() implies (#[trigger] all[i] matches Piece::Text(x)
            ==> exists|k: int| 0 <= k < lines.len() && x == decode_utf8(#[trigger] lines[k])) by {
            if i < prev.len() {
                assert(all[i] == prev[i]);
                if let Piece::Text(x) = prev[i] {
                    let k = choose|k: int| 0 <= k < d.len() && x == decode_utf8(#[trigger] d[k]);
                    assert(lines[k] == d[k]);
                }
            } else if i > prev.len() {
                assert(all[i] == Piece::Text(l));
                assert(lines[lines.len() - 1] == lines.last());
            }
        }
    }
}

/// The broken payload of a break node: one newline piece for each newline
/// sequence of the payload, so at least one, between each two of its lines;
/// every text piece is one of the lines, which hold no newline sequence and
/// no tab.
pub proof fn lemma_break_pieces(broken: Seq<char>)
    requires
        free_of_tabs(encode_utf8(broken)),
        !free_of_linebreaks(encode_utf8(broken)),
    ensures
        linebreak_count(text_to_pieces(broken)) + 1 == split_lines(encode_utf8(broken)).len(),
        linebreak_count(text_to_pieces(broken)) >= 1,
        forall|i: int| 0 <= i < text_to_pieces(broken).len() ==> (#[trigger] text_to_pieces(broken)[i] matches Piece::Text(x)
            ==> exists|line: Seq<u8>| {
                &&& x == decode_utf8(line)
                &&& free_of_tabs(line)
                &&& free_of_linebreaks(line)
            }),
{
    let b = encode_utf8(broken);
    let lines = split_lines(b);
    lemma_lines_from_len(b, 0, 0);
    if no_linebreak_from(b, 0) {
        let j = choose|j: int| 0 <= j < b.len() && !(#[trigger] linebreak_at(b, j) == 0);
        assert(linebreak_at(b, j) == 0);
    }
    lemma_text_pieces_count(lines);
    lemma_split_lines_free(b);
    lemma_lines_from_keep(b, 0, 0, 0x09u8);
    let ps = text_to_pieces(broken);
    assert forall|i: int| 0 <= i < ps.len() implies (#[trigger] ps[i] matches Piece::Text(x)
        ==> exists|line: Seq<u8>| {
            &&& x == decode_utf8(line)
            &&& free_of_tabs(line)
            &&& free_of_linebreaks(line)
        }) by {
        if let Piece::Text(x) = ps[i] {
            let k = choose|k: int| 0 <= k < lines.len() && x == decode_utf8(#[trigger] lines[k]);
            assert(free_of_linebreaks(lines[k]));
            assert forall|j: int| 0 <= j < lines[k].len() implies #[trigger] lines[k][j] != 0x09u8 by {}
        }
    }
}

/// A position in the rendered text: a line (counted from zero) and a
/// column.
pub struct Cursor {
    pub line: nat,
    pub col: nat,
}

/// The position after the first `i` render events, from position `c0`:
/// text and padding move it right by their width, a newline moves it to
/// column zero of the next line; both counts are capped at the largest
/// `usize`, as the layout engine keeps them.
pub open spec fn cursor<A>(evs: Seq<EventModel<A>>, i: int, c0: Cursor) -> Cursor
    decreases i,
{
    if i <= 0 {
        c0
    } else {
        let c = cursor(evs, i - 1, c0);
        match evs[i - 1] {
            EventModel::Text(w, _) => Cursor { line: c.line, col: sat(c.col + w) },
            EventModel::Padding(n) => Cursor { line: c.line, col: sat(c.col + n) },
            EventModel::Linebreak => Cursor { line: sat(c.line + 1), col: 0 },
            _ => c,
        }
    }
}

/// The position in a concatenation: that in the first part, then that in
/// the second from where the first ends.
proof fn lemma_cursor_add<A>(a: Seq<EventModel<A>>, b: Seq<EventModel<A>>, i: int, c0: Cursor)
    requires
        0 <= i <= a.len() + b.len(),
    ensures
        i <= a.len() ==> cursor(a.add(b), i, c0) == cursor(a, i, c0),
        i >= a.len() ==> cursor(a.add(b), i, c0) == cursor(b, i - a.len(), cursor(a, a.len() as int, c0)),
    decreases i,
{
    if i > 0 {
        lemma_cursor_add(a, b, i - 1, c0);
        if i <= a.len() {
            assert(a.add(b)[i - 1] == a[i - 1]);
        } else {
            assert(a.add(b)[i - 1] == b[i - 1 - a.len()]);
        }
    }
}

/// The strict-width facts of a stream from position `c0`: after each
/// newline comes an error exactly when the line it ends is wider than the
/// maximal width (strict constraint only), and each error follows the
/// newline of such a line, reporting its number (from one), the maximal
/// width and its width.
pub open spec fn errors_match_lines<A>(o: Seq<EventModel<A>>, c0: Cursor, s: LayoutSettings) -> bool {
    &&& forall|i: int| 0 <= i < o.len() && #[trigger] o[i] is Linebreak ==> ((s.width_constraint
        == LayoutWidthConstraint::Strict && cursor(o, i, c0).col > s.max_width) <==> (i + 1 < o.len() && o[i
        + 1] is Error))
    &&& forall|i: int| 0 <= i < o.len() && #[trigger] o[i] is Error ==> {
        &&& i > 0
        &&& o[i - 1] is Linebreak
        &&& s.width_constraint == LayoutWidthConstraint::Strict
        &&& cursor(o, i - 1, c0).col > s.max_width
        &&& o[i] == EventModel::<A>::Error(sat(cursor(o, i - 1, c0).line + 1), s.max_width as nat, cursor(o, i - 1, c0).col)
    }
}

/// One step of the second stage: its events leave the position at the line
/// and column of the state after it, and its errors match its lines.
proof fn lemma_step_cursor<A>(e: RawEvent<A>, st: CookState, s: LayoutSettings)
    ensures
        ({
            let (out, next) = cook_step(e, st, s);
            let c0 = Cursor { line: st.line, col: st.col };
            &&& cursor(out, out.len() as int, c0) == (Cursor { line: next.line, col: next.col })
            &&& errors_match_lines(out, c0, s)
        }),
{
    let (out, next) = cook_step(e, st, s);
    let c0 = Cursor { line: st.line, col: st.col };
    reveal_with_fuel(cursor, 3);
    match e {
        RawEvent::Text(x) => {
            if width_of(x) > 0 && st.pending > 0 {
                assert(cursor(out, 1, c0).col == start_col(st));
            }
        },
        RawEvent::Line(k) => {
            assert(out[0] == EventModel::<A>::Linebreak);
            assert(cursor(out, 0, c0) == c0);
            if out.len() > 1 {
                assert(out[1] is Error);
            }
        },
        _ => {},
    }
}

/// Two streams whose errors match their lines, the second starting where
/// the first ends, make one whose errors match its lines.
proof fn lemma_errors_match_add<A>(a: Seq<EventModel<A>>, b: Seq<EventModel<A>>, c0: Cursor, s: LayoutSettings)
    requires
        errors_match_lines(a, c0, s),
        errors_match_lines(b, cursor(a, a.len() as int, c0), s),
    ensures
        errors_match_lines(a.add(b), c0, s),
{
    let o = a.add(b);
    assert forall|i: int| 0 <= i < o.len() && #[trigger] o[i] is Linebreak implies ((s.width_constraint
        == LayoutWidthConstraint::Strict && cursor(o, i, c0).col > s.max_width) <==> (i + 1 < o.len()
        && o[i + 1] is Error)) by {
        lemma_cursor_add(a, b, i, c0);
        if i < a.len() {
            assert(o[i] == a[i]);
            if i + 1 < a.len() {
                assert(o[i + 1] == a[i + 1]);
            } else if i + 1 < o.len() {
                assert(o[i + 1] == b[0]);
                assert(!(b[0] is Error));
            }
        } else {
            let j = i - a.len();
            assert(o[i] == b[j]);
            if i + 1 < o.len() {
                assert(o[i + 1] == b[j + 1]);
            }
        }
    }
    assert forall|i: int| 0 <= i < o.len() && #[trigger] o[i] is Error implies {
        &&& i > 0
        &&& o[i - 1] is Linebreak
        &&& s.width_constraint == LayoutWidthConstraint::Strict
        &&& cursor(o, i - 1, c0).col > s.max_width
        &&& o[i] == EventModel::<A>::Error(sat(cursor(o, i - 1, c0).line + 1), s.max_width as nat, cursor(o, i - 1, c0).col)
    } by {
        if i < a.len() {
            assert(o[i] == a[i]);
            assert(o[i - 1] == a[i - 1]);
            lemma_cursor_add(a, b, i - 1, c0);
        } else {
            let j = i - a.len();
            assert(o[i] == b[j]);
            assert(j > 0);
            assert(o[i - 1] == b[j - 1]);
            lemma_cursor_add(a, b, i - 1, c0);
        }
    }
}

/// A run of the second stage: its events leave the position at the line
/// and column of the state it ends in, and its errors match its lines.
proof fn lemma_cook_cursor<A>(evs: Seq<RawEvent<A>>, st: CookState, s: LayoutSettings)
    ensures
        cursor(cook(evs, st, s), cook(evs, st, s).len() as int, Cursor { line: st.line, col: st.col }) == (Cursor {
            line: cook_final(evs, st, s).line,
            col: cook_final(evs, st, s).col,
        }),
        errors_match_lines(cook(evs, st, s), Cursor { line: st.line, col: st.col }, s),
    decreases evs.len(),
{
    let c0 = Cursor { line: st.line, col: st.col };
    if evs.len() > 0 {
        let (out, next) = cook_step(evs[0], st, s);
        let rest = cook(evs.drop_first(), next, s);
        lemma_cook_cursor(evs.drop_first(), next, s);
        lemma_step_cursor(evs[0], st, s);
        assert(out.add(rest) == cook(evs, st, s));
        lemma_cursor_add(out, rest, (out.len() + rest.len()) as int, c0);
        lemma_errors_match_add(out, rest, c0, s);
    }
}

/// The errors of a stream report exactly its lines wider than the maximal
/// width, under the strict constraint: after each newline comes an error
/// exactly when the line it ends is too wide; each error reports the line it
/// follows (that of the newline before it, or the last line at the end of
/// the stream) by its number (from one), the maximal width and the line's
/// width; and a last line too wide is reported at the end of the stream.
pub open spec fn errors_report_wide_lines<A>(evs: Seq<EventModel<A>>, s: LayoutSettings) -> bool {
    let origin = Cursor { line: 0, col: 0 };
    let end = cursor(evs, evs.len() as int, origin);
    &&& forall|i: int| 0 <= i < evs.len() && #[trigger] evs[i] is Linebreak ==> ((s.width_constraint
        == LayoutWidthConstraint::Strict && cursor(evs, i, origin).col > s.max_width) <==> (i + 1
        < evs.len() && evs[i + 1] is Error))
    &&& forall|i: int| 0 <= i < evs.len() && #[trigger] evs[i] is Error ==> {
        let j = if i > 0 && evs[i - 1] is Linebreak { i - 1 } else { i };
        &&& s.width_constraint == LayoutWidthConstraint::Strict
        &&& cursor(evs, j, origin).col > s.max_width
        &&& evs[i] == EventModel::<A>::Error(sat(cursor(evs, j, origin).line + 1), s.max_width as nat, cursor(evs, j, origin).col)
    }
    &&& (s.width_constraint == LayoutWidthConstraint::Strict && end.col > s.max_width) ==> {
        &&& evs.len() > 0
        &&& evs[evs.len() - 1] == EventModel::<A>::Error(sat(end.line + 1), s.max_width as nat, end.col)
    }
}

/// The error of the last line, when it is due.
pub open spec fn last_line_error<A>(c: Seq<EventModel<A>>, s: LayoutSettings) -> Seq<EventModel<A>> {
    let ce = cursor(c, c.len() as int, Cursor { line: 0, col: 0 });
    if s.width_constraint == LayoutWidthConstraint::Strict && ce.col > s.max_width {
        seq![EventModel::<A>::Error(sat(ce.line + 1), s.max_width as nat, ce.col)]
    } else {
        seq![]
    }
}

/// The newlines of the lines of a stream, followed by the error of the last
/// line, are followed by an error exactly when they end a wide line.
proof fn lemma_final_error_newlines<A>(c: Seq<EventModel<A>>, s: LayoutSettings)
    requires
        errors_match_lines(c, Cursor { line: 0, col: 0 }, s),
    ensures
        ({
            let evs = c.add(last_line_error(c, s));
            let origin = Cursor { line: 0, col: 0 };
            forall|i: int| 0 <= i < evs.len() && #[trigger] evs[i] is Linebreak ==> ((s.width_constraint
                == LayoutWidthConstraint::Strict && cursor(evs, i, origin).col > s.max_width) <==> (i + 1
                < evs.len() && evs[i + 1] is Error))
        }),
{
    let last = last_line_error(c, s);
    let evs = c.add(last);
    let origin = Cursor { line: 0, col: 0 };
    assert forall|i: int| 0 <= i < evs.len() && #[trigger] evs[i] is Linebreak implies ((s.width_constraint
        == LayoutWidthConstraint::Strict && cursor(evs, i, origin).col > s.max_width) <==> (i + 1 < evs.len()
        && evs[i + 1] is Error)) by {
        assert(i < c.len());
        assert(evs[i] == c[i]);
        lemma_cursor_add(c, last, i, origin);
        if i + 1 < c.len() {
            assert(evs[i + 1] == c[i + 1]);
        } else {
            assert(cursor(c, i + 1, origin).col == 0);
        }
    }
}

/// Each error of the lines of a stream, followed by the error of the last
/// line, reports the wide line it follows.
proof fn lemma_final_error_errors<A>(c: Seq<EventModel<A>>, s: LayoutSettings)
    requires
        errors_match_lines(c, Cursor { line: 0, col: 0 }, s),
    ensures
        ({
            let evs = c.add(last_line_error(c, s));
            let origin = Cursor { line: 0, col: 0 };
            forall|i: int| 0 <= i < evs.len() && #[trigger] evs[i] is Error ==> {
                let j = if i > 0 && evs[i - 1] is Linebreak { i - 1 } else { i };
                &&& s.width_constraint == LayoutWidthConstraint::Strict
                &&& cursor(evs, j, origin).col > s.max_width
                &&& evs[i] == EventModel::<A>::Error(sat(cursor(evs, j, origin).line + 1), s.max_width as nat, cursor(evs, j, origin).col)
            }
        }),
{
    let last = last_line_error(c, s);
    let evs = c.add(last);
    let origin = Cursor { line: 0, col: 0 };
    let ce = cursor(c, c.len() as int, origin);
    assert forall|i: int| 0 <= i < evs.len() && #[trigger] evs[i] is Error implies ({
        let j = if i > 0 && evs[i - 1] is Linebreak { i - 1 } else { i };
        &&& s.width_constraint == LayoutWidthConstraint::Strict
        &&& cursor(evs, j, origin).col > s.max_width
        &&& evs[i] == EventModel::<A>::Error(sat(cursor(evs, j, origin).line + 1), s.max_width as nat, cursor(evs, j, origin).col)
    }) by {
        if i < c.len() {
            assert(evs[i] == c[i]);
            assert(evs[i - 1] == c[i - 1]);
            lemma_cursor_add(c, last, i - 1, origin);
        } else {
            assert(evs[i] == last[0]);
            lemma_cursor_add(c, last, i, origin);
            if i > 0 && evs[i - 1] is Linebreak {
                assert(evs[i - 1] == c[c.len() - 1]);
                assert(ce.col == 0);
            }
        }
    }
}

/// The lines of a stream whose errors match them, followed by the error of
/// the last line when it is due, report exactly the wide lines.
proof fn lemma_final_error<A>(c: Seq<EventModel<A>>, s: LayoutSettings)
    requires
        errors_match_lines(c, Cursor { line: 0, col: 0 }, s),
    ensures
        errors_report_wide_lines(c.add(last_line_error(c, s)), s),
{
    let last = last_line_error(c, s);
    let evs = c.add(last);
    let origin = Cursor { line: 0, col: 0 };
    let ce = cursor(c, c.len() as int, origin);
    lemma_cursor_add(c, last, evs.len() as int, origin);
    if last.len() > 0 {
        assert(cursor(last, 0, ce) == ce);
        assert(cursor(last, 1, ce) == ce);
    }
    lemma_final_error_newlines(c, s);
    lemma_final_error_errors(c, s);
}

/// Under the strict constraint, an error is reported for a line exactly
/// when the line is wider than the maximal width: right after its newline,
/// or, for the last line, at the end of the stream. The error carries the
/// line's number (counting from one), the maximal width and the line's
/// width, which is the sum of the widths of its padding and of its text
/// events (the display widths of their text).
pub proof fn lemma_strict_errors<A>(t: DocTree<A>, s: LayoutSettings)
    ensures
        errors_report_wide_lines(layout_events(t, s), s),
{
    let r = layout_raw(t, s);
    let c = cook(r, cook_init(), s);
    let fin = cook_final(r, cook_init(), s);
    lemma_cook_cursor(r, cook_init(), s);
    assert(cook_init().line == 0 && cook_init().col == 0);
    assert(final_err::<A>(fin, s) == last_line_error(c, s));
    lemma_final_error(c, s);
}

/// Text is printed at the start column of the state: the text event of a
/// non-empty text comes last among the events it produces, at the position
/// `start_col(st)` on the current line (after the padding held back, if
/// any), and the column after it is that start plus the text's width.
pub proof fn lemma_text_printed_at_start_col<A>(x: Seq<char>, st: CookState, s: LayoutSettings)
    requires
        width_of(x) > 0,
        st.col <= usize::MAX,
    ensures
        ({
            let (out, next) = cook_step(RawEvent::<A>::Text(x), st, s);
            let c0 = Cursor { line: st.line, col: st.col };
            &&& out.len() > 0
            &&& out[out.len() - 1] == EventModel::<A>::Text(width_of(x), x)
            &&& cursor(out, out.len() - 1, c0) == (Cursor { line: st.line, col: start_col(st) })
            &&& cursor(out, out.len() as int, c0).col == sat(start_col(st) + width_of(x))
        }),
{
    let (out, next) = cook_step(RawEvent::<A>::Text(x), st, s);
    let c0 = Cursor { line: st.line, col: st.col };
    reveal_with_fuel(cursor, 3);
    if st.pending > 0 {
        assert(out[0] == EventModel::<A>::Padding(padding_of(st)));
        assert(cursor(out, 1, c0).col == sat(st.col + padding_of(st)));
    } else {
        assert(cursor(out, 0, c0) == c0);
    }
}

/// A `Normal` group that is not forced flat is laid out flat exactly when
/// its contents can be laid out flat (no hard linebreak, no forced break
/// that shows) and either its flat length fits in the space left on the
/// line, counted from the column at which its first text is printed
/// (`start_col`, which includes the indentation padding pending at the start
/// of a line), or, under the relaxed constraint only, its flat length is
/// within the minimal width. So a `Normal` group laid out flat never starts
/// beyond what the maximal width leaves for it, unless the relaxed minimal
/// width allows it.
pub proof fn lemma_normal_group_mode<A>(c: DocTree<A>, s: LayoutSettings, st: CookState)
    ensures
        (normal_mode(c, false, s, st) == LayoutMode::Flat) <==> (match flat_len(c) {
            Some(n) => {
                ||| (s.width_constraint == LayoutWidthConstraint::Relaxed && n <= s.min_width)
                ||| start_col(st) + n <= s.max_width
            },
            None => false,
        }),
        normal_mode(c, false, s, st) == LayoutMode::Flat && s.width_constraint == LayoutWidthConstraint::Strict
            ==> flat_len(c) is Some && start_col(st) + flat_len(c)->0 <= s.max_width,
        normal_mode(c, true, s, st) == LayoutMode::Flat,
{
}

/// The decision of a `Normal` group only gets easier further left: a group
/// laid out flat when its first text would be printed at some column is
/// laid out flat at any column not further right.
pub proof fn lemma_normal_group_leftward<A>(c: DocTree<A>, ff: bool, s: LayoutSettings, st1: CookState, st2: CookState)
    requires
        start_col(st2) <= start_col(st1),
        normal_mode(c, ff, s, st1) == LayoutMode::Flat,
    ensures
        normal_mode(c, ff, s, st2) == LayoutMode::Flat,
{
}

/// Under the strict constraint the minimal width plays no part in a
/// group's decision: two settings that differ only in their minimal width
/// decide every `Normal` group alike.
pub proof fn lemma_strict_normal_ignores_min_width<A>(c: DocTree<A>, ff: bool, s1: LayoutSettings, s2: LayoutSettings, st: CookState)
    requires
        s1.width_constraint == LayoutWidthConstraint::Strict,
        s2.width_constraint == LayoutWidthConstraint::Strict,
        s1.max_width == s2.max_width,
    ensures
        normal_mode(c, ff, s1, st) == normal_mode(c, ff, s2, st),
{
}

/// Two settings that agree on all but the minimal width, under the strict
/// constraint: the same outcome of every step of the second stage.
proof fn lemma_cook_min_width<A>(evs: Seq<RawEvent<A>>, st: CookState, s1: LayoutSettings, s2: LayoutSettings)
    requires
        s1.width_constraint == s2.width_constraint,
        s1.max_width == s2.max_width,
    ensures
        cook(evs, st, s1) == cook(evs, st, s2),
        cook_final(evs, st, s1) == cook_final(evs, st, s2),
    decreases evs.len(),
{
    if evs.len() > 0 {
        assert(cook_step(evs[0], st, s1) == cook_step(evs[0], st, s2));
        lemma_cook_min_width(evs.drop_first(), cook_step(evs[0], st, s1).1, s1, s2);
    }
}

/// Under the strict constraint, the raw events of a document do not depend
/// on the minimal width.
proof fn lemma_raw_min_width<A>(t: DocTree<A>, indent: nat, mode: LayoutMode, ff: bool, s1: LayoutSettings, s2: LayoutSettings, st: CookState)
    requires
        s1.width_constraint == LayoutWidthConstraint::Strict,
        s2.width_constraint == LayoutWidthConstraint::Strict,
        s1.max_width == s2.max_width,
    ensures
        raw(t, indent, mode, ff, s1, st) == raw(t, indent, mode, ff, s2, st),
    decreases t,
{
    match t {
        DocTree::Group(p, c) => {
            assert(group_child(p, *c, ff, s1, st) == group_child(p, *c, ff, s2, st));
            let (m, f2) = group_child(p, *c, ff, s1, st);
            lemma_raw_min_width(*c, indent, m, f2, s1, s2, st);
        },
        DocTree::Sequence(cs) => lemma_raw_seq_min_width(cs, indent, mode, ff, s1, s2, st),
        DocTree::Nest(k, c) => {
            assert(cook_step(RawEvent::<A>::NestIn(k), st, s1) == cook_step(RawEvent::<A>::NestIn(k), st, s2));
            lemma_raw_min_width(*c, sat((indent + k) as nat), mode, ff, s1, s2, cook_step(RawEvent::<A>::NestIn(k), st, s1).1);
            lemma_raw_min_width(*c, indent, mode, ff, s1, s2, st);
        },
        DocTree::Annotation(a, c) => {
            assert(cook_step(RawEvent::PushAnnotation(a), st, s1) == cook_step(RawEvent::PushAnnotation(a), st, s2));
            lemma_raw_min_width(*c, indent, mode, ff, s1, s2, cook_step(RawEvent::PushAnnotation(a), st, s1).1);
        },
        _ => {},
    }
}

/// Under the strict constraint, the raw events of a list of documents do
/// not depend on the minimal width.
proof fn lemma_raw_seq_min_width<A>(cs: Seq<DocTree<A>>, indent: nat, mode: LayoutMode, ff: bool, s1: LayoutSettings, s2: LayoutSettings, st: CookState)
    requires
        s1.width_constraint == LayoutWidthConstraint::Strict,
        s2.width_constraint == LayoutWidthConstraint::Strict,
        s1.max_width == s2.max_width,
    ensures
        raw_seq(cs, indent, mode, ff, s1, st) == raw_seq(cs, indent, mode, ff, s2, st),
    decreases cs,
{
    if cs.len() > 0 {
        let h = raw(cs[0], indent, mode, ff, s1, st);
        lemma_raw_min_width(cs[0], indent, mode, ff, s1, s2, st);
        lemma_cook_min_width(h, st, s1, s2);
        lemma_raw_seq_min_width(cs.subrange(1, cs.len() as int), indent, mode, ff, s1, s2, cook_final(h, st, s1));
    }
}

/// Under the strict constraint the minimal width plays no part in layout:
/// two settings that differ only in their minimal width give every
/// document the same render events.
pub proof fn lemma_strict_layout_ignores_min_width<A>(t: DocTree<A>, s1: LayoutSettings, s2: LayoutSettings)
    requires
        s1.width_constraint == LayoutWidthConstraint::Strict,
        s2.width_constraint == LayoutWidthConstraint::Strict,
        s1.max_width == s2.max_width,
        s1.initial_mode == s2.initial_mode,
    ensures
        layout_events(t, s1) == layout_events(t, s2),
{
    lemma_raw_min_width(t, 0, s1.initial_mode, false, s1, s2, cook_init());
    let r = layout_raw(t, s1);
    assert(r == layout_raw(t, s2));
    lemma_cook_min_width(r, cook_init(), s1, s2);
}

} // verus!
