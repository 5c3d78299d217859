//! Layout: the engine that turns a document into a stream of render events,
//! and its settings.
//!
//! The stream is specified in two stages. `raw` walks the document tree and
//! lists, in order, the text, newline, annotation and nesting events that the
//! layout decisions call for; a group's decision reads the column at which
//! it starts, so the walk carries the state of the second stage along. `cook`
//! runs over that list with a small state (pending padding, cursor, pending
//! dedentation) to produce the render events: padding is held back until
//! text follows it, empty text is dropped, nesting entered at the start of a
//! line indents that line, and lines that violate a strict width constraint
//! are followed by an error event, the last line's at the end of the stream.
//! The engine's counters (column, line, padding, indentation) stop at the
//! largest `usize` rather than overflow; the model caps them alike (`sat`).

use vstd::prelude::*;

use crate::document::{
    flat_len, lemma_status_ok, pieces_of, width_of, BreakStatus, DocTree, Document,
    GroupPolicy, Piece, TextFragment, node_tree, doc_tree, trees_of, lemma_trees_of,
};
use crate::handle::boxdoc::BoxDoc;
use crate::renderer::{borrowed_model, EventModel, LayoutError, RenderEvent};

verus! {

/// The layout modes of document nodes.
#[derive(Debug, Clone, Copy, PartialEq, Eq, Hash)]
pub enum LayoutMode {
    /// Display components flat.
    Flat,
    /// Display components broken. Sub-components may still be displayed flat.
    Broken,
}

/// How the maximal width of a layout is enforced.
#[derive(Debug, Clone, Copy, PartialEq, Eq, Hash)]
pub enum LayoutWidthConstraint {
    /// A best-effort constraint: exceeding it signals nothing.
    Relaxed,
    /// A hard constraint: a line that exceeds it is followed by an error
    /// event at its end (after its newline, or at the end of the stream for
    /// the last line).
    Strict,
}

/// The settings of a layout engine.
#[derive(Debug, Clone, PartialEq, Eq, Hash)]
pub struct LayoutSettings {
    /// Groups whose flat length is at most this width are displayed flat
    /// (relaxed constraint only).
    pub min_width: usize,
    /// The maximal width of a line in which groups can display flat.
    pub max_width: usize,
    /// The width constraint mode.
    pub width_constraint: LayoutWidthConstraint,
    /// The layout mode at the root of the document.
    pub initial_mode: LayoutMode,
}

/// The default settings, suited to an IDE: minimal width 20, maximal width
/// 100, relaxed constraint, flat initial mode.
pub open spec fn default_settings() -> LayoutSettings {
    LayoutSettings {
        min_width: 20,
        max_width: 100,
        width_constraint: LayoutWidthConstraint::Relaxed,
        initial_mode: LayoutMode::Flat,
    }
}

impl Default for LayoutSettings {
    /// The default settings.
    fn default() -> (r: Self)
        ensures
            r == default_settings(),
    {
        LayoutSettings {
            min_width: 20,
            max_width: 100,
            width_constraint: LayoutWidthConstraint::Relaxed,
            initial_mode: LayoutMode::Flat,
        }
    }
}

/// The events that layout decisions call for, before padding and cursor
/// bookkeeping.
pub enum RawEvent<A> {
    /// Flat text, by its characters.
    Text(Seq<char>),
    /// A newline, after which the line is indented by the given amount.
    Line(nat),
    PushAnnotation(A),
    PopAnnotation,
    /// Entering a broken `Nest` of the given indentation.
    NestIn(nat),
    /// Leaving a broken `Nest` of the given indentation.
    NestOut(nat),
}

/// The state of the second stage: padding held back, cursor (line and
/// column, zero-indexed) and dedentation pending from left nests.
pub struct CookState {
    pub pending: nat,
    pub col: nat,
    pub line: nat,
    pub dedent: nat,
}

/// The initial state of the second stage.
pub open spec fn cook_init() -> CookState {
    CookState { pending: 0, col: 0, line: 0, dedent: 0 }
}

/// A number as the layout engine keeps it: capped at the largest `usize`.
pub open spec fn sat(x: nat) -> nat {
    if x > usize::MAX {
        usize::MAX as nat
    } else {
        x
    }
}

/// The padding that text would be given now: the padding held back, less
/// the indentation of the nests left since (never below zero).
pub open spec fn padding_of(st: CookState) -> nat {
    if st.pending >= st.dedent {
        (st.pending - st.dedent) as nat
    } else {
        0
    }
}

/// The column at which the next text would start: the cursor, after the
/// padding held back, if any.
pub open spec fn start_col(st: CookState) -> nat {
    if st.pending > 0 {
        sat(st.col + padding_of(st))
    } else {
        st.col
    }
}

/// The render events of one raw event, and the state after it.
pub open spec fn cook_step<A>(e: RawEvent<A>, st: CookState, s: LayoutSettings) -> (Seq<EventModel<A>>, CookState) {
    match e {
        RawEvent::Text(x) => {
            let w = width_of(x);
            if w == 0 {
                (seq![], st)
            } else if st.pending > 0 {
                (
                    seq![EventModel::Padding(padding_of(st)), EventModel::Text(w, x)],
                    CookState { pending: 0, col: sat(start_col(st) + w), line: st.line, dedent: 0 },
                )
            } else {
                (
                    seq![EventModel::Text(w, x)],
                    CookState { pending: st.pending, col: sat(st.col + w), line: st.line, dedent: 0 },
                )
            }
        },
        RawEvent::Line(i) => (
            seq![EventModel::Linebreak].add(
                if s.width_constraint == LayoutWidthConstraint::Strict && st.col > s.max_width {
                    seq![EventModel::Error(sat(st.line + 1), s.max_width as nat, st.col)]
                } else {
                    seq![]
                },
            ),
            CookState { pending: i, col: 0, line: sat(st.line + 1), dedent: 0 },
        ),
        RawEvent::PushAnnotation(a) => (
            seq![EventModel::PushAnnotation(a)],
            CookState { pending: st.pending, col: st.col, line: st.line, dedent: 0 },
        ),
        RawEvent::PopAnnotation => (
            seq![EventModel::PopAnnotation],
            CookState { pending: st.pending, col: st.col, line: st.line, dedent: 0 },
        ),
        RawEvent::NestIn(k) => (
            seq![],
            if st.col == 0 {
                CookState { pending: sat(st.pending + k), col: st.col, line: st.line, dedent: st.dedent }
            } else {
                st
            },
        ),
        RawEvent::NestOut(k) => (
            seq![],
            CookState { pending: st.pending, col: st.col, line: st.line, dedent: sat(st.dedent + k) },
        ),
    }
}

/// The render events of a list of raw events, from the given state.
pub open spec fn cook<A>(evs: Seq<RawEvent<A>>, st: CookState, s: LayoutSettings) -> Seq<EventModel<A>>
    decreases evs.len(),
{
    if evs.len() == 0 {
        seq![]
    } else {
        let (out, next) = cook_step(evs[0], st, s);
        out.add(cook(evs.drop_first(), next, s))
    }
}

/// The state after a list of raw events, from the given state.
pub open spec fn cook_final<A>(evs: Seq<RawEvent<A>>, st: CookState, s: LayoutSettings) -> CookState
    decreases evs.len(),
{
    if evs.len() == 0 {
        st
    } else {
        cook_final(evs.drop_first(), cook_step(evs[0], st, s).1, s)
    }
}

/// The error at the end of the last line: under a strict constraint, when
/// that line is wider than the maximal width.
pub open spec fn final_err<A>(st: CookState, s: LayoutSettings) -> Seq<EventModel<A>> {
    if s.width_constraint == LayoutWidthConstraint::Strict && st.col > s.max_width {
        seq![EventModel::Error(sat(st.line + 1), s.max_width as nat, st.col)]
    } else {
        seq![]
    }
}

/// The layout mode of the child of a `Normal` group, the next text starting
/// at column `start_col(st)`: flat when its flat length is within the
/// minimal width (relaxed constraint only) or fits in the space left on the
/// line; broken otherwise.
pub open spec fn normal_mode<A>(c: DocTree<A>, force_flat: bool, s: LayoutSettings, st: CookState) -> LayoutMode {
    if force_flat {
        LayoutMode::Flat
    } else if s.width_constraint == LayoutWidthConstraint::Relaxed && (match flat_len(c) {
        Some(n) => n <= s.min_width,
        None => false,
    }) {
        LayoutMode::Flat
    } else if (match flat_len(c) {
        Some(n) => start_col(st) + n <= s.max_width,
        None => false,
    }) {
        LayoutMode::Flat
    } else {
        LayoutMode::Broken
    }
}

/// The layout mode and force-flat flag of the child of a group.
pub open spec fn group_child<A>(p: GroupPolicy, c: DocTree<A>, force_flat: bool, s: LayoutSettings, st: CookState) -> (LayoutMode, bool) {
    match p {
        GroupPolicy::Normal => (normal_mode(c, force_flat, s, st), force_flat),
        GroupPolicy::FlatIfPossible => {
            if flat_len(c) is Some {
                (LayoutMode::Flat, true)
            } else {
                (LayoutMode::Broken, false)
            }
        },
        GroupPolicy::ForceBreak => (LayoutMode::Broken, force_flat),
    }
}

/// The raw event of a piece of a broken payload.
pub open spec fn piece_raw<A>(p: Piece, indent: nat) -> RawEvent<A> {
    match p {
        Piece::Text(x) => RawEvent::Text(x),
        Piece::Linebreak => RawEvent::Line(indent),
    }
}

/// The raw events of the pieces of a broken payload.
pub open spec fn raw_pieces<A>(ps: Seq<Piece>, indent: nat) -> Seq<RawEvent<A>> {
    ps.map_values(|p: Piece| piece_raw::<A>(p, indent))
}

/// The raw events of a document laid out at the given indentation, in the
/// given mode, with force-flat in effect or not, starting in the state `st`
/// of the second stage (which the decisions of groups read).
pub open spec fn raw<A>(t: DocTree<A>, indent: nat, mode: LayoutMode, force_flat: bool, s: LayoutSettings, st: CookState) -> Seq<RawEvent<A>>
    decreases t,
{
    match t {
        DocTree::Nil => seq![],
        DocTree::Text(x) => seq![RawEvent::Text(x)],
        DocTree::Break(f, ps) => {
            if mode == LayoutMode::Flat {
                seq![RawEvent::Text(f)]
            } else {
                raw_pieces(ps, indent)
            }
        },
        DocTree::HardLinebreak => seq![RawEvent::Line(indent)],
        DocTree::Group(p, c) => {
            let (m, ff) = group_child(p, *c, force_flat, s, st);
            raw(*c, indent, m, ff, s, st)
        },
        DocTree::Sequence(cs) => raw_seq(cs, indent, mode, force_flat, s, st),
        DocTree::Nest(k, c) => {
            if mode == LayoutMode::Broken {
                seq![RawEvent::NestIn(k)].add(
                    raw(*c, sat((indent + k) as nat), mode, force_flat, s, cook_step(RawEvent::<A>::NestIn(k), st, s).1),
                ).add(seq![RawEvent::NestOut(k)])
            } else {
                raw(*c, indent, mode, force_flat, s, st)
            }
        },
        DocTree::Annotation(a, c) => seq![RawEvent::PushAnnotation(a)].add(
            raw(*c, indent, mode, force_flat, s, cook_step(RawEvent::PushAnnotation(a), st, s).1),
        ).add(seq![RawEvent::PopAnnotation]),
    }
}

/// The raw events of a sequence of children, one after another, each
/// starting in the state the previous ones leave.
pub open spec fn raw_seq<A>(cs: Seq<DocTree<A>>, indent: nat, mode: LayoutMode, force_flat: bool, s: LayoutSettings, st: CookState) -> Seq<RawEvent<A>>
    decreases cs,
{
    if cs.len() == 0 {
        seq![]
    } else {
        let h = raw(cs[0], indent, mode, force_flat, s, st);
        h.add(raw_seq(cs.subrange(1, cs.len() as int), indent, mode, force_flat, s, cook_final(h, st, s)))
    }
}

/// The raw events of a document under the given settings.
pub open spec fn layout_raw<A>(t: DocTree<A>, s: LayoutSettings) -> Seq<RawEvent<A>> {
    raw(t, 0, s.initial_mode, false, s, cook_init())
}

/// The render events of a document under the given settings: those of its
/// lines, then the error of the last line, if it is due.
pub open spec fn layout_events<A>(t: DocTree<A>, s: LayoutSettings) -> Seq<EventModel<A>> {
    cook(layout_raw(t, s), cook_init(), s).add(final_err(cook_final(layout_raw(t, s), cook_init(), s), s))
}

/// The model of a pending unit of work of the layout engine.
pub enum FrameModel<A> {
    /// Lay out a document at an indentation, in a mode, with force-flat in
    /// effect or not.
    Call(DocTree<A>, nat, LayoutMode, bool),
    /// Emit the remaining pieces of a broken payload at an indentation.
    Pieces(Seq<Piece>, nat),
    /// Close an annotation.
    Pop,
    /// Leave a broken nest of the given indentation.
    Dedent(nat),
}

/// The raw events that a pending unit of work stands for, started in the
/// state `st`.
pub open spec fn frame_raw<A>(f: FrameModel<A>, s: LayoutSettings, st: CookState) -> Seq<RawEvent<A>> {
    match f {
        FrameModel::Call(t, i, m, ff) => raw(t, i, m, ff, s, st),
        FrameModel::Pieces(ps, i) => raw_pieces(ps, i),
        FrameModel::Pop => seq![RawEvent::PopAnnotation],
        FrameModel::Dedent(k) => seq![RawEvent::NestOut(k)],
    }
}

/// The raw events of a stack of pending work, the top (last) first, started
/// in the state `st`.
pub open spec fn stack_raw<A>(stk: Seq<FrameModel<A>>, s: LayoutSettings, st: CookState) -> Seq<RawEvent<A>>
    decreases stk.len(),
{
    if stk.len() == 0 {
        seq![]
    } else {
        let h = frame_raw(stk.last(), s, st);
        h.add(stack_raw(stk.drop_last(), s, cook_final(h, st, s)))
    }
}

/// The size of a document: the number of steps the engine may spend on it.
pub open spec fn tree_size<A>(t: DocTree<A>) -> nat
    decreases t,
{
    match t {
        DocTree::Break(_, ps) => ps.len() + 2,
        DocTree::Group(_, c) => 1 + tree_size(*c),
        DocTree::Sequence(cs) => 1 + seq_size(cs),
        DocTree::Nest(_, c) => 2 + tree_size(*c),
        DocTree::Annotation(_, c) => 2 + tree_size(*c),
        _ => 1,
    }
}

/// The total size of a sequence of documents.
pub open spec fn seq_size<A>(cs: Seq<DocTree<A>>) -> nat
    decreases cs,
{
    if cs.len() == 0 {
        0
    } else {
        tree_size(cs[0]) + seq_size(cs.subrange(1, cs.len() as int))
    }
}

/// Each document of a sequence is no larger than the sequence.
pub proof fn lemma_seq_size_each<A>(cs: Seq<DocTree<A>>)
    ensures
        forall|i: int| 0 <= i < cs.len() ==> tree_size(#[trigger] cs[i]) <= seq_size(cs),
    decreases cs.len(),
{
    if cs.len() > 0 {
        let tail = cs.subrange(1, cs.len() as int);
        lemma_seq_size_each(tail);
        assert forall|i: int| 0 <= i < cs.len() implies tree_size(#[trigger] cs[i]) <= seq_size(cs) by {
            if i > 0 {
                assert(cs[i] == tail[i - 1]);
            }
        }
    }
}

/// The size of a pending unit of work.
pub open spec fn frame_size<A>(f: FrameModel<A>) -> nat {
    match f {
        FrameModel::Call(t, _, _, _) => tree_size(t),
        FrameModel::Pieces(ps, _) => ps.len() + 1,
        _ => 1,
    }
}

/// The total size of a stack of pending work.
pub open spec fn stack_size<A>(stk: Seq<FrameModel<A>>) -> nat
    decreases stk.len(),
{
    if stk.len() == 0 {
        0
    } else {
        frame_size(stk.last()) + stack_size(stk.drop_last())
    }
}

/// Pushing a unit of work puts its raw events first; the rest of the stack
/// starts in the state they leave.
proof fn lemma_stack_push<A>(stk: Seq<FrameModel<A>>, f: FrameModel<A>, s: LayoutSettings, st: CookState)
    ensures
        stack_raw(stk.push(f), s, st) == frame_raw(f, s, st).add(
            stack_raw(stk, s, cook_final(frame_raw(f, s, st), st, s)),
        ),
        stack_size(stk.push(f)) == frame_size(f) + stack_size(stk),
{
    assert(stk.push(f).drop_last() =~= stk);
}

/// Cooking a list that starts with a given raw event.
proof fn lemma_cook_cons<A>(e: RawEvent<A>, rest: Seq<RawEvent<A>>, st: CookState, s: LayoutSettings)
    ensures
        cook(seq![e].add(rest), st, s) == cook_step(e, st, s).0.add(
            cook(rest, cook_step(e, st, s).1, s),
        ),
        cook_final(seq![e].add(rest), st, s) == cook_final(rest, cook_step(e, st, s).1, s),
        cook_final(seq![e], st, s) == cook_step(e, st, s).1,
{
    assert((seq![e].add(rest)).drop_first() =~= rest);
    assert(seq![e].drop_first() =~= Seq::<RawEvent<A>>::empty());
    assert(cook_final(Seq::<RawEvent<A>>::empty(), cook_step(e, st, s).1, s) == cook_step(e, st, s).1);
}

/// Cooking two lists one after the other: the second starts in the state the
/// first leaves.
pub proof fn lemma_cook_append<A>(a: Seq<RawEvent<A>>, b: Seq<RawEvent<A>>, st: CookState, s: LayoutSettings)
    ensures
        cook(a.add(b), st, s) == cook(a, st, s).add(cook(b, cook_final(a, st, s), s)),
        cook_final(a.add(b), st, s) == cook_final(b, cook_final(a, st, s), s),
    decreases a.len(),
{
    if a.len() == 0 {
        assert(a.add(b) =~= b);
        assert(cook(a, st, s).add(cook(b, st, s)) =~= cook(b, st, s));
    } else {
        let next = cook_step(a[0], st, s).1;
        lemma_cook_append(a.drop_first(), b, next, s);
        assert(a.add(b).drop_first() =~= a.drop_first().add(b));
        assert(cook_step(a[0], st, s).0.add(cook(a.drop_first(), next, s)).add(cook(b, cook_final(a.drop_first(), next, s), s))
            =~= cook_step(a[0], st, s).0.add(cook(a.drop_first(), next, s).add(cook(b, cook_final(a.drop_first(), next, s), s))));
    }
}

/// The raw events of the children of a sequence, from the `i`-th on.
proof fn lemma_raw_seq_at<A>(cs: Seq<DocTree<A>>, i: int, indent: nat, mode: LayoutMode, ff: bool, s: LayoutSettings, st: CookState)
    requires
        0 <= i < cs.len(),
    ensures
        raw_seq(cs.subrange(i, cs.len() as int), indent, mode, ff, s, st) == raw(cs[i], indent, mode, ff, s, st).add(
            raw_seq(cs.subrange(i + 1, cs.len() as int), indent, mode, ff, s, cook_final(raw(cs[i], indent, mode, ff, s, st), st, s)),
        ),
        seq_size(cs.subrange(i, cs.len() as int)) == tree_size(cs[i]) + seq_size(
            cs.subrange(i + 1, cs.len() as int),
        ),
{
    let t = cs.subrange(i, cs.len() as int);
    assert(t.subrange(1, t.len() as int) =~= cs.subrange(i + 1, cs.len() as int));
}

/// The raw events of the pieces of a broken payload, from the `i`-th on.
proof fn lemma_raw_pieces_at<A>(ps: Seq<Piece>, i: int, indent: nat)
    requires
        0 <= i < ps.len(),
    ensures
        raw_pieces::<A>(ps.skip(i), indent) == seq![piece_raw::<A>(ps[i], indent)].add(
            raw_pieces::<A>(ps.skip(i + 1), indent),
        ),
{
    assert(raw_pieces::<A>(ps.skip(i), indent) =~= seq![piece_raw::<A>(ps[i], indent)].add(
        raw_pieces::<A>(ps.skip(i + 1), indent),
    ));
}


/// An event produced by the layout engine but not yet handed out: the text
/// after the padding before it, or the error after a newline.
enum Held<'doc> {
    Nothing,
    Text(usize, &'doc str),
    Error(LayoutError),
}

/// A pending unit of work of the layout engine: the call frame of the
/// recursive formulation of the layout walk.
enum Frame<'doc, A> {
    /// Lay out a document at an indentation, in a mode, with force-flat in
    /// effect or not.
    Call(&'doc Document<A>, usize, LayoutMode, bool),
    /// Emit the pieces of a broken payload from an index on, at an indentation.
    Pieces(&'doc Vec<TextFragment<'static>>, usize, usize),
    /// Close an annotation.
    Pop,
    /// Leave a broken nest of the given indentation.
    Dedent(usize),
}

impl<'doc, A> Frame<'doc, A> {
    spec fn model(self) -> FrameModel<A> {
        match self {
            Frame::Call(d, i, m, ff) => FrameModel::Call(node_tree(*d), i as nat, m, ff),
            Frame::Pieces(v, idx, i) => FrameModel::Pieces(pieces_of(v@).skip(idx as int), i as nat),
            Frame::Pop => FrameModel::Pop,
            Frame::Dedent(k) => FrameModel::Dedent(k as nat),
        }
    }

    spec fn wf(self) -> bool {
        match self {
            Frame::Pieces(v, idx, _) => idx <= v@.len(),
            _ => true,
        }
    }
}

/// The layout engine: borrows a document and produces its render events one
/// at a time, following Wadler's algorithm with group policies.
///
/// Its state is a stack of pending work, the padding held back until text
/// follows it, the cursor, the dedentation pending from nests just left, and
/// at most one event produced but not yet handed out.
pub struct LayoutEngine<'doc, A = ()> {
    stack: Vec<Frame<'doc, A>>,
    held: Held<'doc>,
    pending_padding: usize,
    line: usize,
    column: usize,
    dedent: usize,
    finished: bool,
    settings: LayoutSettings,
    expected: Ghost<Seq<EventModel<A>>>,
    produced: Ghost<Seq<EventModel<A>>>,
}

/// Consuming the first raw event `e` of the work ahead: its events come
/// first, then those of the rest, from the state it leaves.
proof fn lemma_advance<A>(stk: Seq<FrameModel<A>>, e: RawEvent<A>, st: CookState, s: LayoutSettings)
    ensures
        ({
            let st1 = cook_step(e, st, s).1;
            let old_rest = seq![e].add(stack_raw(stk, s, cook_final(seq![e], st, s)));
            let new_rest = Seq::<RawEvent<A>>::empty().add(stack_raw(stk, s, cook_final(Seq::<RawEvent<A>>::empty(), st1, s)));
            &&& cook(old_rest, st, s) == cook_step(e, st, s).0.add(cook(new_rest, st1, s))
            &&& cook_final(old_rest, st, s) == cook_final(new_rest, st1, s)
        }),
{
    let st1 = cook_step(e, st, s).1;
    let r = stack_raw(stk, s, st1);
    lemma_cook_cons(e, r, st, s);
    assert(Seq::<RawEvent<A>>::empty().add(r) =~= r);
}

impl<'doc, A> LayoutEngine<'doc, A> {
    /// All the events of the layout, from the start.
    pub closed spec fn expected(self) -> Seq<EventModel<A>> {
        self.expected@
    }

    /// The events handed out so far.
    pub closed spec fn produced(self) -> Seq<EventModel<A>> {
        self.produced@
    }

    spec fn stack_model(self) -> Seq<FrameModel<A>> {
        self.stack@.map_values(|f: Frame<'doc, A>| f.model())
    }

    spec fn state(self) -> CookState {
        CookState {
            pending: self.pending_padding as nat,
            col: self.column as nat,
            line: self.line as nat,
            dedent: self.dedent as nat,
        }
    }

    spec fn held_model(self) -> Seq<EventModel<A>> {
        match self.held {
            Held::Nothing => seq![],
            Held::Text(w, x) => seq![EventModel::Text(w as nat, x@)],
            Held::Error(LayoutError::WidthExceeded { line_num, max_width, line_width }) => seq![
                EventModel::Error(line_num as nat, max_width as nat, line_width as nat),
            ],
        }
    }

    /// The raw events still to be cooked: `pre`, then those of the stack.
    spec fn rest(self, pre: Seq<RawEvent<A>>) -> Seq<RawEvent<A>> {
        pre.add(stack_raw(self.stack_model(), self.settings, cook_final(pre, self.state(), self.settings)))
    }

    /// The error of the last line still due once the work is done.
    spec fn tail(self, rest: Seq<RawEvent<A>>) -> Seq<EventModel<A>> {
        if self.finished {
            seq![]
        } else {
            final_err(cook_final(rest, self.state(), self.settings), self.settings)
        }
    }

    /// The invariant, with the raw events `pre` still to be cooked before
    /// those of the stack.
    spec fn inv_with(self, pre: Seq<RawEvent<A>>) -> bool {
        let rest = self.rest(pre);
        &&& forall|i: int| 0 <= i < self.stack@.len() ==> (#[trigger] self.stack@[i]).wf()
        &&& self.produced@.add(self.held_model()).add(cook(rest, self.state(), self.settings)).add(self.tail(rest))
            == self.expected@
    }

    /// The engine is consistent: what it has handed out, what it holds and
    /// what its pending work stands for make up the expected events.
    pub closed spec fn wf(self) -> bool {
        self.inv_with(seq![])
    }

    /// Creates a layout engine over the document with default settings.
    pub fn new(document: &'doc Document<A>) -> (r: Self)
        ensures
            r.wf(),
            r.expected() == layout_events(node_tree(*document), default_settings()),
            r.produced() == Seq::<EventModel<A>>::empty(),
    {
        Self::with_settings(document, LayoutSettings::default())
    }

    /// Creates a layout engine over the document with the given settings.
    pub fn with_settings(document: &'doc Document<A>, settings: LayoutSettings) -> (r: Self)
        ensures
            r.wf(),
            r.expected() == layout_events(node_tree(*document), settings),
            r.produced() == Seq::<EventModel<A>>::empty(),
    {
        let mut stack: Vec<Frame<'doc, A>> = Vec::new();
        stack.push(Frame::Call(document, 0, settings.initial_mode, false));
        let ghost t = node_tree(*document);
        let r = LayoutEngine {
            stack,
            held: Held::Nothing,
            pending_padding: 0,
            line: 0,
            column: 0,
            dedent: 0,
            finished: false,
            settings,
            expected: Ghost(layout_events(t, settings)),
            produced: Ghost(Seq::empty()),
        };
        proof {
            let m = r.stack_model();
            let f = FrameModel::Call(t, 0, settings.initial_mode, false);
            let empty = Seq::<RawEvent<A>>::empty();
            assert(m =~= Seq::<FrameModel<A>>::empty().push(f));
            assert(r.state() == cook_init());
            assert(cook_final(empty, cook_init(), settings) == cook_init());
            lemma_stack_push(Seq::<FrameModel<A>>::empty(), f, settings, cook_init());
            let raw_all = layout_raw(t, settings);
            assert(stack_raw(m, settings, cook_init()) =~= raw_all);
            assert(r.rest(empty) =~= raw_all);
            assert(r.produced@.add(r.held_model()).add(cook(raw_all, cook_init(), settings)).add(r.tail(raw_all)) =~= layout_events(t, settings));
        }
        r
    }

    /// Hands out flat text of the given width, after the padding held back,
    /// if any; empty text is dropped.
    fn emit_text(&mut self, w: usize, text: &'doc str) -> (r: Option<RenderEvent<'doc, &'doc A>>)
        requires
            old(self).inv_with(seq![RawEvent::Text(text@)]),
            old(self).held is Nothing,
            w == width_of(text@),
        ensures
            final(self).stack == old(self).stack,
            final(self).settings == old(self).settings,
            final(self).expected == old(self).expected,
            final(self).finished == old(self).finished,
            final(self).wf(),
            match r {
                Some(e) => final(self).produced@ == old(self).produced@.push(borrowed_model(e)),
                None => final(self).produced@ == old(self).produced@ && final(self).held is Nothing,
            },
    {
        let ghost s = self.settings;
        let ghost st = self.state();
        let ghost ev = RawEvent::<A>::Text(text@);
        let ghost old_produced = self.produced@;
        let ghost empty = Seq::<RawEvent<A>>::empty();
        proof {
            lemma_advance(self.stack_model(), ev, st, s);
        }
        if w == 0 {
            proof {
                assert(cook_step(ev, st, s).0 =~= Seq::<EventModel<A>>::empty());
                assert(self.state() == cook_step(ev, st, s).1);
                assert(self.produced@.add(self.held_model()).add(cook(old(self).rest(seq![ev]), st, s))
                    =~= self.produced@.add(self.held_model()).add(cook(self.rest(empty), self.state(), s)));
            }
            return None;
        }
        let e;
        if self.pending_padding > 0 {
            let padding = if self.pending_padding >= self.dedent {
                self.pending_padding - self.dedent
            } else {
                0
            };
            self.column = self.column.saturating_add(padding).saturating_add(w);
            self.pending_padding = 0;
            self.dedent = 0;
            self.held = Held::Text(w, text);
            e = RenderEvent::Padding(padding);
        } else {
            self.column = self.column.saturating_add(w);
            self.dedent = 0;
            e = RenderEvent::Text(w, text);
        }
        self.produced = Ghost(self.produced@.push(borrowed_model(e)));
        proof {
            assert(self.state() == cook_step(ev, st, s).1);
            assert(self.produced@.add(self.held_model()) =~= old_produced.add(cook_step(ev, st, s).0));
            assert(self.produced@.add(self.held_model()).add(cook(self.rest(empty), self.state(), s))
                =~= old_produced.add(Seq::<EventModel<A>>::empty()).add(cook_step(ev, st, s).0.add(cook(self.rest(empty), self.state(), s))));
        }
        Some(e)
    }

    /// Hands out a newline after which lines are indented by `indent`; a
    /// line that violates a strict width constraint is followed by an error.
    fn emit_line(&mut self, indent: usize) -> (e: RenderEvent<'doc, &'doc A>)
        requires
            old(self).inv_with(seq![RawEvent::Line(indent as nat)]),
            old(self).held is Nothing,
        ensures
            final(self).stack == old(self).stack,
            final(self).settings == old(self).settings,
            final(self).expected == old(self).expected,
            final(self).finished == old(self).finished,
            final(self).wf(),
            final(self).produced@ == old(self).produced@.push(borrowed_model(e)),
    {
        let ghost s = self.settings;
        let ghost st = self.state();
        let ghost ev = RawEvent::<A>::Line(indent as nat);
        let ghost empty = Seq::<RawEvent<A>>::empty();
        proof {
            lemma_advance(self.stack_model(), ev, st, s);
        }
        let line_width = self.column;
        if matches!(self.settings.width_constraint, LayoutWidthConstraint::Strict)
            && line_width > self.settings.max_width {
            self.held = Held::Error(LayoutError::WidthExceeded {
                line_num: self.line.saturating_add(1),
                max_width: self.settings.max_width,
                line_width,
            });
        }
        self.line = self.line.saturating_add(1);
        self.column = 0;
        self.pending_padding = indent;
        self.dedent = 0;
        let e = RenderEvent::Linebreak;
        let ghost old_produced = self.produced@;
        self.produced = Ghost(self.produced@.push(borrowed_model(e)));
        proof {
            assert(self.state() == cook_step(ev, st, s).1);
            assert(self.produced@.add(self.held_model()) =~= old_produced.add(cook_step(ev, st, s).0));
            assert(self.produced@.add(self.held_model()).add(cook(self.rest(empty), self.state(), s))
                =~= old_produced.add(Seq::<EventModel<A>>::empty()).add(cook_step(ev, st, s).0.add(cook(self.rest(empty), self.state(), s))));
        }
        e
    }

    /// The column at which the next text would start.
    fn start_column(&self) -> (r: usize)
        ensures
            r == start_col(self.state()),
    {
        if self.pending_padding > 0 {
            let padding = if self.pending_padding >= self.dedent {
                self.pending_padding - self.dedent
            } else {
                0
            };
            self.column.saturating_add(padding)
        } else {
            self.column
        }
    }

    /// The layout mode of the child of a `Normal` group, from the space left
    /// on the current line.
    fn determine_mode(&self, child: &Document<A>, force_flat: bool) -> (m: LayoutMode)
        ensures
            m == normal_mode(node_tree(*child), force_flat, self.settings, self.state()),
    {
        proof {
            lemma_status_ok(node_tree(*child));
        }
        let status = child.break_status();
        if force_flat {
            return LayoutMode::Flat;
        }
        if matches!(self.settings.width_constraint, LayoutWidthConstraint::Relaxed) {
            match status {
                BreakStatus::FlatLength(span) => {
                    if span <= self.settings.min_width {
                        return LayoutMode::Flat;
                    }
                },
                BreakStatus::MustBreak => {},
            }
        }
        match status {
            BreakStatus::FlatLength(span) => {
                let start = self.start_column();
                match start.checked_add(span) {
                    Some(end) => {
                        if end <= self.settings.max_width {
                            LayoutMode::Flat
                        } else {
                            LayoutMode::Broken
                        }
                    },
                    None => LayoutMode::Broken,
                }
            },
            BreakStatus::MustBreak => LayoutMode::Broken,
        }
    }

    /// The layout mode and force-flat flag of the child of a group.
    fn group_mode(&self, policy: GroupPolicy, child: &Document<A>, force_flat: bool) -> (r: (LayoutMode, bool))
        ensures
            r == group_child(policy, node_tree(*child), force_flat, self.settings, self.state()),
    {
        match policy {
            GroupPolicy::Normal => (self.determine_mode(child, force_flat), force_flat),
            GroupPolicy::FlatIfPossible => {
                proof {
                    lemma_status_ok(node_tree(*child));
                }
                let status = child.break_status();
                match status {
                    BreakStatus::MustBreak => (LayoutMode::Broken, false),
                    BreakStatus::FlatLength(_) => (LayoutMode::Flat, true),
                }
            },
            GroupPolicy::ForceBreak => (LayoutMode::Broken, force_flat),
        }
    }

    /// Pushes the children of a sequence, the first on top.
    fn push_children(&mut self, children: &'doc Vec<BoxDoc<A>>, indent: usize, mode: LayoutMode, force_flat: bool)
        requires
            old(self).inv_with(raw_seq(trees_of(children@), indent as nat, mode, force_flat, old(self).settings, old(self).state())),
        ensures
            final(self).wf(),
            final(self).settings == old(self).settings,
            final(self).expected == old(self).expected,
            final(self).produced == old(self).produced,
            final(self).held == old(self).held,
            final(self).finished == old(self).finished,
            stack_size(final(self).stack_model()) == seq_size(trees_of(children@)) + stack_size(old(self).stack_model()),
    {
        let ghost s = self.settings;
        let ghost cs = trees_of(children@);
        let ghost base = self.stack_model();
        let ghost st0 = self.state();
        let n = children.len();
        proof {
            lemma_trees_of(children@);
            assert(cs.subrange(n as int, n as int) =~= Seq::<DocTree<A>>::empty());
            assert forall|c: CookState| #[trigger] stack_raw(base, s, c) == raw_seq(cs.subrange(n as int, n as int), indent as nat, mode, force_flat, s, c).add(
                stack_raw(base, s, cook_final(raw_seq(cs.subrange(n as int, n as int), indent as nat, mode, force_flat, s, c), c, s))) by {
                assert(raw_seq(cs.subrange(n as int, n as int), indent as nat, mode, force_flat, s, c) == Seq::<RawEvent<A>>::empty());
                assert(Seq::<RawEvent<A>>::empty().add(stack_raw(base, s, c)) =~= stack_raw(base, s, c));
            }
            assert(seq_size(cs.subrange(n as int, n as int)) == 0);
        }
        let mut i = n;
        while i > 0
            invariant
                0 <= i <= n,
                n == children@.len(),
                cs == trees_of(children@),
                cs.len() == n,
                s == self.settings,
                forall|j: int| 0 <= j < self.stack@.len() ==> (#[trigger] self.stack@[j]).wf(),
                forall|c: CookState| #[trigger] stack_raw(self.stack_model(), s, c) == raw_seq(cs.subrange(i as int, n as int), indent as nat, mode, force_flat, s, c).add(
                    stack_raw(base, s, cook_final(raw_seq(cs.subrange(i as int, n as int), indent as nat, mode, force_flat, s, c), c, s))),
                stack_size(self.stack_model()) == seq_size(cs.subrange(i as int, n as int)) + stack_size(base),
                self.settings == old(self).settings,
                self.expected == old(self).expected,
                self.produced == old(self).produced,
                self.held == old(self).held,
                self.finished == old(self).finished,
                self.pending_padding == old(self).pending_padding,
                self.line == old(self).line,
                self.column == old(self).column,
                self.dedent == old(self).dedent,
            decreases i,
        {
            i = i - 1;
            let c: &'doc BoxDoc<A> = &children[i];
            let cd: &'doc Document<A> = &*c.0;
            let ghost before = self.stack_model();
            self.stack.push(Frame::Call(cd, indent, mode, force_flat));
            proof {
                let f = FrameModel::Call(cs[i as int], indent as nat, mode, force_flat);
                lemma_trees_of(children@);
                assert(cs[i as int] == doc_tree(children@[i as int]));
                assert(node_tree(*cd) == cs[i as int]);
                assert(self.stack_model() =~= before.push(f));
                let tail = cs.subrange(i + 1, n as int);
                let whole = cs.subrange(i as int, n as int);
                assert forall|c: CookState| #[trigger] stack_raw(self.stack_model(), s, c) == raw_seq(whole, indent as nat, mode, force_flat, s, c).add(
                    stack_raw(base, s, cook_final(raw_seq(whole, indent as nat, mode, force_flat, s, c), c, s))) by {
                    lemma_stack_push(before, f, s, c);
                    lemma_raw_seq_at(cs, i as int, indent as nat, mode, force_flat, s, c);
                    let h = raw(cs[i as int], indent as nat, mode, force_flat, s, c);
                    let c2 = cook_final(h, c, s);
                    let t2 = raw_seq(tail, indent as nat, mode, force_flat, s, c2);
                    lemma_cook_append(h, t2, c, s);
                    assert(h.add(t2.add(stack_raw(base, s, cook_final(t2, c2, s)))) =~= h.add(t2).add(stack_raw(base, s, cook_final(t2, c2, s))));
                }
                lemma_stack_push(before, f, s, st0);
                lemma_raw_seq_at(cs, i as int, indent as nat, mode, force_flat, s, st0);
            }
        }
        proof {
            let empty = Seq::<RawEvent<A>>::empty();
            let pre = raw_seq(cs, indent as nat, mode, force_flat, s, st0);
            assert(cs.subrange(0, n as int) =~= cs);
            assert(self.state() == st0);
            assert(cook_final(empty, st0, s) == st0);
            assert(self.rest(empty) =~= old(self).rest(pre));
            lemma_cook_append(pre, stack_raw(base, s, cook_final(pre, st0, s)), st0, s);
        }
    }

    /// Pushes a unit of work onto the stack, with the raw events `before`
    /// still to be cooked ahead of it; no event is due.
    fn push_frame(&mut self, f: Frame<'doc, A>, Ghost(before): Ghost<Seq<RawEvent<A>>>, Ghost(pre): Ghost<Seq<RawEvent<A>>>)
        requires
            old(self).inv_with(before.add(pre)),
            pre == frame_raw(f.model(), old(self).settings, cook_final(before, old(self).state(), old(self).settings)),
            f.wf(),
        ensures
            final(self).inv_with(before),
            final(self).settings == old(self).settings,
            final(self).expected == old(self).expected,
            final(self).produced == old(self).produced,
            final(self).held == old(self).held,
            final(self).finished == old(self).finished,
            final(self).state() == old(self).state(),
            final(self).stack@ == old(self).stack@.push(f),
            stack_size(final(self).stack_model()) == frame_size(f.model()) + stack_size(old(self).stack_model()),
    {
        let ghost s = self.settings;
        let ghost st = self.state();
        let ghost base = self.stack_model();
        self.stack.push(f);
        proof {
            let c1 = cook_final(before, st, s);
            assert(self.stack_model() =~= base.push(f.model()));
            lemma_stack_push(base, f.model(), s, c1);
            lemma_cook_append(before, pre, st, s);
            assert(self.rest(before) =~= old(self).rest(before.add(pre)));
            assert forall|j: int| 0 <= j < self.stack@.len() implies (#[trigger] self.stack@[j]).wf() by {
                if j < self.stack@.len() - 1 {
                    assert(self.stack@[j] == old(self).stack@[j]);
                }
            }
        }
    }

    /// Enters a broken nest of indentation `k` around `cd`.
    fn enter_nest(&mut self, k: usize, cd: &'doc Document<A>, indent: usize, mode: LayoutMode, force_flat: bool)
        requires
            old(self).inv_with(seq![RawEvent::NestIn(k as nat)].add(
                raw(node_tree(*cd), sat((indent + k) as nat), mode, force_flat, old(self).settings,
                    cook_step(RawEvent::<A>::NestIn(k as nat), old(self).state(), old(self).settings).1)).add(
                seq![RawEvent::NestOut(k as nat)])),
            old(self).held is Nothing,
        ensures
            final(self).wf(),
            final(self).settings == old(self).settings,
            final(self).expected == old(self).expected,
            final(self).produced == old(self).produced,
            final(self).finished == old(self).finished,
            final(self).held is Nothing,
            stack_size(final(self).stack_model()) == 1 + tree_size(node_tree(*cd)) + stack_size(old(self).stack_model()),
    {
        let ghost s = self.settings;
        let ghost base = self.stack_model();
        let ghost st = self.state();
        let ghost ev = RawEvent::<A>::NestIn(k as nat);
        let ghost st1 = cook_step(ev, st, s).1;
        let ghost inner = raw(node_tree(*cd), sat((indent + k) as nat), mode, force_flat, s, st1);
        let ghost dpre = seq![RawEvent::NestOut(k as nat)];
        let ghost pre_old = seq![ev].add(inner).add(dpre);
        proof {
            assert(pre_old =~= seq![ev].add(inner.add(dpre)));
            lemma_cook_cons(ev, inner.add(dpre), st, s);
            lemma_cook_cons(ev, inner.add(dpre).add(stack_raw(base, s, cook_final(pre_old, st, s))), st, s);
            assert(cook_step(ev, st, s).0 =~= Seq::<EventModel<A>>::empty());
        }
        if self.column == 0 {
            self.pending_padding = self.pending_padding.saturating_add(k);
        }
        proof {
            assert(self.state() == st1);
            assert(self.stack_model() == base);
            assert(old(self).rest(pre_old) =~= seq![ev].add(self.rest(inner.add(dpre))));
            assert(self.produced@.add(self.held_model()).add(cook(self.rest(inner.add(dpre)), self.state(), s))
                =~= self.produced@.add(self.held_model()).add(cook(old(self).rest(pre_old), st, s)));
            assert(self.inv_with(inner.add(dpre)));
        }
        self.push_frame(Frame::Dedent(k), Ghost(inner), Ghost(dpre));
        let ghost empty = Seq::<RawEvent<A>>::empty();
        proof {
            assert(empty.add(inner) =~= inner);
            assert(cook_final(empty, st1, s) == st1);
        }
        self.push_frame(Frame::Call(cd, indent.saturating_add(k), mode, force_flat), Ghost(empty), Ghost(inner));
    }

    /// Enters an annotation around `cd`: hands out its opening event.
    fn enter_annotation(&mut self, a: &'doc A, cd: &'doc Document<A>, indent: usize, mode: LayoutMode, force_flat: bool) -> (e: RenderEvent<'doc, &'doc A>)
        requires
            old(self).inv_with(seq![RawEvent::PushAnnotation(*a)].add(
                raw(node_tree(*cd), indent as nat, mode, force_flat, old(self).settings,
                    cook_step(RawEvent::PushAnnotation(*a), old(self).state(), old(self).settings).1)).add(
                seq![RawEvent::PopAnnotation])),
            old(self).held is Nothing,
        ensures
            final(self).wf(),
            final(self).settings == old(self).settings,
            final(self).expected == old(self).expected,
            final(self).finished == old(self).finished,
            final(self).produced@ == old(self).produced@.push(borrowed_model(e)),
    {
        let ghost s = self.settings;
        let ghost base = self.stack_model();
        let ghost st = self.state();
        let ghost ev = RawEvent::PushAnnotation(*a);
        let ghost st1 = cook_step(ev, st, s).1;
        let ghost inner = raw(node_tree(*cd), indent as nat, mode, force_flat, s, st1);
        let ghost ppre = seq![RawEvent::<A>::PopAnnotation];
        let ghost pre_old = seq![ev].add(inner).add(ppre);
        proof {
            assert(pre_old =~= seq![ev].add(inner.add(ppre)));
            lemma_cook_cons(ev, inner.add(ppre), st, s);
            lemma_cook_cons(ev, inner.add(ppre).add(stack_raw(base, s, cook_final(pre_old, st, s))), st, s);
        }
        self.dedent = 0;
        let e = RenderEvent::PushAnnotation(a);
        let ghost old_produced = self.produced@;
        self.produced = Ghost(self.produced@.push(borrowed_model(e)));
        proof {
            assert(self.state() == st1);
            assert(self.stack_model() == base);
            assert(old(self).rest(pre_old) =~= seq![ev].add(self.rest(inner.add(ppre))));
            assert(self.produced@.add(self.held_model()).add(cook(self.rest(inner.add(ppre)), self.state(), s))
                =~= old_produced.add(Seq::<EventModel<A>>::empty()).add(cook(old(self).rest(pre_old), st, s)));
            assert(self.inv_with(inner.add(ppre)));
        }
        self.push_frame(Frame::Pop, Ghost(inner), Ghost(ppre));
        let ghost empty = Seq::<RawEvent<A>>::empty();
        proof {
            assert(empty.add(inner) =~= inner);
            assert(cook_final(empty, st1, s) == st1);
        }
        self.push_frame(Frame::Call(cd, indent, mode, force_flat), Ghost(empty), Ghost(inner));
        e
    }

    /// Takes one step on a document popped from the stack: pushes the work
    /// it stands for, and hands out the event it starts with, if any.
    fn expand(&mut self, d: &'doc Document<A>, indent: usize, mode: LayoutMode, force_flat: bool) -> (r: Option<RenderEvent<'doc, &'doc A>>)
        requires
            old(self).inv_with(raw(node_tree(*d), indent as nat, mode, force_flat, old(self).settings, old(self).state())),
            old(self).held is Nothing,
        ensures
            final(self).wf(),
            final(self).settings == old(self).settings,
            final(self).expected == old(self).expected,
            final(self).finished == old(self).finished,
            match r {
                Some(e) => final(self).produced@ == old(self).produced@.push(borrowed_model(e)),
                None => {
                    &&& final(self).produced@ == old(self).produced@
                    &&& final(self).held is Nothing
                    &&& stack_size(final(self).stack_model()) < stack_size(old(self).stack_model())
                        + tree_size(node_tree(*d))
                },
            },
    {
        let ghost s = self.settings;
        let ghost st = self.state();
        let ghost t = node_tree(*d);
        let ghost empty = Seq::<RawEvent<A>>::empty();
        let ghost this = raw(t, indent as nat, mode, force_flat, s, st);
        proof {
            assert(empty.add(this) =~= this);
            assert(cook_final(empty, st, s) == st);
        }
        match d {
            Document::Nil => {
                proof {
                    assert(t == DocTree::<A>::Nil);
                    assert(this =~= empty);
                    assert(tree_size(t) == 1);
                }
                None
            },
            Document::Text(fragment) => self.emit_text(fragment.unicode_width(), fragment.inner()),
            Document::Break(breaker) => {
                if matches!(mode, LayoutMode::Flat) {
                    self.emit_text(breaker.flat().unicode_width(), breaker.flat().inner())
                } else {
                    let broken = breaker.broken();
                    proof {
                        assert(pieces_of(broken@).skip(0) =~= pieces_of(broken@));
                        assert(pieces_of(broken@).len() == broken@.len());
                    }
                    self.push_frame(Frame::Pieces(broken, 0, indent), Ghost(empty), Ghost(this));
                    None
                }
            },
            Document::HardLinebreak => Some(self.emit_line(indent)),
            Document::Group(policy, child) => {
                let cd: &'doc Document<A> = &*child.0;
                let (m, ff) = self.group_mode(*policy, cd, force_flat);
                self.push_frame(Frame::Call(cd, indent, m, ff), Ghost(empty), Ghost(this));
                None
            },
            Document::Sequence(sequence) => {
                let children = sequence.children();
                self.push_children(children, indent, mode, force_flat);
                None
            },
            Document::Nest(k, child) => {
                let cd: &'doc Document<A> = &*child.0;
                if matches!(mode, LayoutMode::Broken) {
                    self.enter_nest(*k, cd, indent, mode, force_flat);
                } else {
                    self.push_frame(Frame::Call(cd, indent, mode, force_flat), Ghost(empty), Ghost(this));
                }
                None
            },
            Document::Annotation(annotation, child) => {
                let cd: &'doc Document<A> = &*child.0;
                let a: &'doc A = &**annotation;
                Some(self.enter_annotation(a, cd, indent, mode, force_flat))
            },
        }
    }

    /// Hands out the closing event of an annotation.
    fn emit_pop(&mut self) -> (e: RenderEvent<'doc, &'doc A>)
        requires
            old(self).inv_with(seq![RawEvent::PopAnnotation]),
            old(self).held is Nothing,
        ensures
            final(self).wf(),
            final(self).stack == old(self).stack,
            final(self).settings == old(self).settings,
            final(self).expected == old(self).expected,
            final(self).finished == old(self).finished,
            final(self).produced@ == old(self).produced@.push(borrowed_model(e)),
    {
        let ghost s = self.settings;
        let ghost st = self.state();
        let ghost ev = RawEvent::<A>::PopAnnotation;
        let ghost empty = Seq::<RawEvent<A>>::empty();
        proof {
            lemma_advance(self.stack_model(), ev, st, s);
        }
        self.dedent = 0;
        let e = RenderEvent::PopAnnotation;
        let ghost old_produced = self.produced@;
        self.produced = Ghost(self.produced@.push(borrowed_model(e)));
        proof {
            assert(self.state() == cook_step(ev, st, s).1);
            assert(self.produced@.add(self.held_model()).add(cook(self.rest(empty), self.state(), s))
                =~= old_produced.add(Seq::<EventModel<A>>::empty()).add(cook_step(ev, st, s).0.add(cook(self.rest(empty), self.state(), s))));
        }
        e
    }

    /// Leaves a broken nest of indentation `k`: the padding handed out next
    /// shrinks by `k`.
    fn leave_nest(&mut self, k: usize)
        requires
            old(self).inv_with(seq![RawEvent::NestOut(k as nat)]),
            old(self).held is Nothing,
        ensures
            final(self).wf(),
            final(self).stack == old(self).stack,
            final(self).settings == old(self).settings,
            final(self).expected == old(self).expected,
            final(self).produced == old(self).produced,
            final(self).finished == old(self).finished,
            final(self).held is Nothing,
    {
        let ghost s = self.settings;
        let ghost st = self.state();
        let ghost ev = RawEvent::<A>::NestOut(k as nat);
        let ghost empty = Seq::<RawEvent<A>>::empty();
        proof {
            lemma_advance(self.stack_model(), ev, st, s);
        }
        self.dedent = self.dedent.saturating_add(k);
        proof {
            assert(self.state() == cook_step(ev, st, s).1);
            assert(cook_step(ev, st, s).0 =~= Seq::<EventModel<A>>::empty());
            assert(self.produced@.add(self.held_model()).add(cook(self.rest(empty), self.state(), s))
                =~= self.produced@.add(self.held_model()).add(cook_step(ev, st, s).0.add(cook(self.rest(empty), self.state(), s))));
        }
    }

    /// Takes one piece of a broken payload, at index `idx` of `v`.
    fn emit_piece(&mut self, v: &'doc Vec<TextFragment<'static>>, idx: usize, indent: usize) -> (r: Option<RenderEvent<'doc, &'doc A>>)
        requires
            old(self).inv_with(raw_pieces(pieces_of(v@).skip(idx as int), indent as nat)),
            idx < v@.len(),
            indent <= usize::MAX,
            old(self).held is Nothing,
        ensures
            final(self).wf(),
            final(self).settings == old(self).settings,
            final(self).expected == old(self).expected,
            final(self).finished == old(self).finished,
            match r {
                Some(e) => final(self).produced@ == old(self).produced@.push(borrowed_model(e)),
                None => {
                    &&& final(self).produced@ == old(self).produced@
                    &&& final(self).held is Nothing
                    &&& stack_size(final(self).stack_model()) < stack_size(old(self).stack_model())
                        + (v@.len() - idx) + 1
                },
            },
    {
        let ghost ps = pieces_of(v@);
        let ghost ev = piece_raw::<A>(ps[idx as int], indent as nat);
        let n = v.len();
        proof {
            lemma_raw_pieces_at::<A>(ps, idx as int, indent as nat);
        }
        let ghost first = seq![ev];
        let ghost later = raw_pieces::<A>(ps.skip(idx + 1), indent as nat);
        let next = idx + 1;
        self.push_frame(Frame::Pieces(v, next, indent), Ghost(first), Ghost(later));
        match &v[idx] {
            TextFragment::Text(fragment) => self.emit_text(fragment.unicode_width(), fragment.inner()),
            TextFragment::Linebreak => Some(self.emit_line(indent)),
        }
    }

    /// Takes steps until an event is due, and hands it out; at the end of
    /// the work, the error of the last line if it is due; `None` when the
    /// layout is complete.
    fn step(&mut self) -> (r: Option<RenderEvent<'doc, &'doc A>>)
        requires
            old(self).wf(),
        ensures
            final(self).wf(),
            final(self).settings == old(self).settings,
            final(self).expected == old(self).expected,
            match r {
                Some(e) => final(self).produced@ == old(self).produced@.push(borrowed_model(e)),
                None => final(self).produced@ == old(self).produced@ && old(self).produced@
                    == old(self).expected@,
            },
    {
        let mut held = Held::Nothing;
        std::mem::swap(&mut held, &mut self.held);
        match held {
            Held::Text(w, x) => {
                let e = RenderEvent::Text(w, x);
                let ghost old_produced = self.produced@;
                self.produced = Ghost(self.produced@.push(borrowed_model(e)));
                proof {
                    assert(self.produced@.add(self.held_model()) =~= old_produced.add(seq![borrowed_model(e)]));
                }
                return Some(e);
            },
            Held::Error(err) => {
                let e = RenderEvent::Error(err);
                let ghost old_produced = self.produced@;
                self.produced = Ghost(self.produced@.push(borrowed_model(e)));
                proof {
                    assert(self.produced@.add(self.held_model()) =~= old_produced.add(seq![borrowed_model(e)]));
                }
                return Some(e);
            },
            Held::Nothing => {},
        }
        loop
            invariant
                self.wf(),
                self.held is Nothing,
                self.settings == old(self).settings,
                self.expected == old(self).expected,
                self.produced == old(self).produced,
            decreases stack_size(self.stack_model()),
        {
            let ghost s = self.settings;
            let ghost st = self.state();
            let ghost base = self.stack_model();
            let ghost base_stack = self.stack@;
            let ghost empty = Seq::<RawEvent<A>>::empty();
            let ghost old_rest = self.rest(empty);
            proof {
                assert(cook_final(empty, st, s) == st);
                assert(old_rest =~= stack_raw(base, s, st));
            }
            let popped = self.stack.pop();
            match popped {
                None => {
                    let ghost old_produced = self.produced@;
                    proof {
                        assert(base.len() == 0);
                        assert(self.rest(empty) =~= empty);
                        assert(cook(empty, st, s) =~= Seq::<EventModel<A>>::empty());
                        assert(cook_final(empty, st, s) == st);
                        assert(self.produced@.add(self.held_model()).add(cook(empty, st, s)) =~= self.produced@);
                    }
                    if !self.finished {
                        self.finished = true;
                        if matches!(self.settings.width_constraint, LayoutWidthConstraint::Strict)
                            && self.column > self.settings.max_width {
                            let e = RenderEvent::Error(LayoutError::WidthExceeded {
                                line_num: self.line.saturating_add(1),
                                max_width: self.settings.max_width,
                                line_width: self.column,
                            });
                            self.produced = Ghost(self.produced@.push(borrowed_model(e)));
                            proof {
                                assert(self.rest(empty) =~= empty);
                                assert(self.produced@ =~= old_produced.add(final_err::<A>(st, s)));
                                assert(self.produced@.add(self.held_model()).add(cook(self.rest(empty), self.state(), s)).add(self.tail(self.rest(empty)))
                                    =~= self.produced@);
                            }
                            return Some(e);
                        }
                        proof {
                            assert(final_err::<A>(st, s) =~= Seq::<EventModel<A>>::empty());
                            assert(self.rest(empty) =~= empty);
                            assert(self.produced@.add(self.held_model()).add(cook(self.rest(empty), self.state(), s)).add(self.tail(self.rest(empty)))
                                =~= self.produced@);
                        }
                    }
                    proof {
                        assert(self.rest(empty) =~= empty);
                        assert(self.produced@.add(self.held_model()).add(cook(self.rest(empty), self.state(), s)).add(self.tail(self.rest(empty)))
                            =~= self.produced@);
                    }
                    return None;
                },
                Some(frame) => {
                    proof {
                        assert(base =~= self.stack_model().push(frame.model()));
                        lemma_stack_push(self.stack_model(), frame.model(), s, st);
                        assert(frame.wf());
                        let fr = frame_raw(frame.model(), s, st);
                        assert(stack_raw(base, s, st) == fr.add(stack_raw(self.stack_model(), s, cook_final(fr, st, s))));
                        assert(self.rest(fr) =~= old_rest);
                        assert(self.state() == st);
                        assert forall|j: int| 0 <= j < self.stack@.len() implies (#[trigger] self.stack@[j]).wf() by {
                            assert(self.stack@[j] == base_stack[j]);
                        }
                        assert(self.inv_with(fr));
                    }
                    match frame {
                        Frame::Call(d, indent, mode, force_flat) => {
                            if let Some(e) = self.expand(d, indent, mode, force_flat) {
                                return Some(e);
                            }
                        },
                        Frame::Pieces(v, idx, indent) => {
                            if idx < v.len() {
                                if let Some(e) = self.emit_piece(v, idx, indent) {
                                    return Some(e);
                                }
                            } else {
                                proof {
                                    assert(pieces_of(v@).len() == v@.len());
                                    assert(raw_pieces::<A>(pieces_of(v@).skip(idx as int), indent as nat) =~= empty);
                                    assert(self.rest(empty) =~= self.rest(raw_pieces::<A>(pieces_of(v@).skip(idx as int), indent as nat)));
                                }
                            }
                        },
                        Frame::Pop => {
                            return Some(self.emit_pop());
                        },
                        Frame::Dedent(k) => {
                            self.leave_nest(k);
                        },
                    }
                },
            }
        }
    }

    /// What has been handed out is the start of the expected events.
    pub proof fn lemma_produced_prefix(&self)
        requires
            self.wf(),
        ensures
            self.produced().len() <= self.expected().len(),
            self.produced() == self.expected().take(self.produced().len() as int),
    {
        let rest = self.rest(seq![]);
        let tail = self.held_model().add(cook(rest, self.state(), self.settings)).add(self.tail(rest));
        assert(self.produced@.add(self.held_model()).add(cook(rest, self.state(), self.settings)).add(self.tail(rest)) =~= self.produced@.add(tail));
        assert(self.produced@ =~= self.expected@.take(self.produced@.len() as int));
    }

    /// Hands out the next render event, or `None` when the layout is complete.
    pub fn next_event(&mut self) -> (r: Option<RenderEvent<'doc, &'doc A>>)
        requires
            old(self).wf(),
        ensures
            final(self).wf(),
            final(self).expected() == old(self).expected(),
            match r {
                Some(e) => {
                    &&& old(self).produced().len() < old(self).expected().len()
                    &&& borrowed_model(e) == old(self).expected()[old(self).produced().len() as int]
                    &&& final(self).produced() == old(self).produced().push(borrowed_model(e))
                },
                None => {
                    &&& old(self).produced() == old(self).expected()
                    &&& final(self).produced() == old(self).produced()
                },
            },
    {
        let r = self.step();
        proof {
            self.lemma_produced_prefix();
            if r is Some {
                assert(self.produced@[old(self).produced@.len() as int] == borrowed_model(r->0));
            }
        }
        r
    }

    /// Hands out all the remaining render events, in order.
    pub fn collect_events(&mut self) -> (r: Vec<RenderEvent<'doc, &'doc A>>)
        requires
            old(self).wf(),
        ensures
            final(self).wf(),
            final(self).expected() == old(self).expected(),
            final(self).produced() == final(self).expected(),
            r@.map_values(|e: RenderEvent<'doc, &'doc A>| borrowed_model(e)) == old(self).expected().skip(
                old(self).produced().len() as int,
            ),
    {
        let ghost start = self.produced@.len();
        let mut out: Vec<RenderEvent<'doc, &'doc A>> = Vec::new();
        proof {
            self.lemma_produced_prefix();
        }
        loop
            invariant
                self.wf(),
                self.expected() == old(self).expected(),
                start == old(self).produced().len(),
                start <= self.produced().len() <= self.expected().len(),
                self.produced() == self.expected().take(self.produced().len() as int),
                out@.map_values(|e: RenderEvent<'doc, &'doc A>| borrowed_model(e)) == self.expected().subrange(
                    start as int,
                    self.produced().len() as int,
                ),
            ensures
                self.wf(),
                self.expected() == old(self).expected(),
                self.produced() == self.expected(),
                out@.map_values(|e: RenderEvent<'doc, &'doc A>| borrowed_model(e)) == self.expected().subrange(
                    start as int,
                    self.expected().len() as int,
                ),
            decreases self.expected().len() - self.produced().len(),
        {
            let ghost before = out@;
            let ghost p_old = self.produced().len();
            match self.next_event() {
                Some(e) => {
                    out.push(e);
                    proof {
                        self.lemma_produced_prefix();
                        assert(out@ =~= before.push(e));
                        assert(borrowed_model(e) == self.expected()[p_old as int]);
                        assert(before.map_values(|e: RenderEvent<'doc, &'doc A>| borrowed_model(e)) == self.expected().subrange(
                            start as int,
                            p_old as int,
                        ));
                        assert(self.produced().len() == p_old + 1);
                        let mapped = out@.map_values(|e: RenderEvent<'doc, &'doc A>| borrowed_model(e));
                        let bmapped = before.map_values(|e: RenderEvent<'doc, &'doc A>| borrowed_model(e));
                        assert forall|i: int| 0 <= i < mapped.len() implies mapped[i] == self.expected()[start + i] by {
                            assert(bmapped.len() == p_old - start);
                            if i < before.len() {
                                assert(mapped[i] == bmapped[i]);
                                assert(bmapped[i] == self.expected().subrange(start as int, p_old as int)[i]);
                            } else {
                                assert(i == before.len());
                                assert(mapped[i] == borrowed_model(out@[i]));
                                assert(out@[i] == e);
                            }
                        }
                        let want = self.expected().subrange(start as int, self.produced().len() as int);
                        assert(mapped.len() == out@.len());
                        assert(bmapped.len() == before.len());
                        assert(want.len() == mapped.len());
                        assert forall|i: int| 0 <= i < mapped.len() implies mapped[i] == want[i] by {
                            assert(want[i] == self.expected()[start + i]);
                        }
                        assert(mapped =~= want);
                    }
                },
                None => {
                    break;
                },
            }
        }
        proof {
            assert(old(self).expected().skip(start as int) =~= old(self).expected().subrange(start as int, old(self).expected().len() as int));
        }
        out
    }
}

} // verus!
