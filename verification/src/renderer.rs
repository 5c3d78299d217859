//! Render events, produced by the layout engine, and the plaintext renderer
//! that consumes them.

use vstd::prelude::*;
use vstd::string::*;

use crate::document::reverse_vec;
use crate::layout::LayoutEngine;

verus! {

/// Errors signalled during layout.
#[derive(Debug, Clone, PartialEq, Eq, Hash)]
pub enum LayoutError {
    /// A line exceeded the maximal width under a strict width constraint.
    WidthExceeded {
        /// One-indexed.
        line_num: usize,
        max_width: usize,
        line_width: usize,
    },
}

/// An event of the stream that a layout engine produces and a renderer consumes.
#[derive(Debug, Clone, PartialEq, Eq, Hash)]
pub enum RenderEvent<'payload, A = ()> {
    /// Print the text as is; its display width comes first. The text holds no
    /// newline sequence.
    Text(usize, &'payload str),
    /// Insert a newline.
    Linebreak,
    /// Insert whitespace padding of the given width.
    Padding(usize),
    /// Opens the scope of an annotation (stack semantics).
    PushAnnotation(A),
    /// Closes the scope of the most recent annotation.
    PopAnnotation,
    /// A signalled error: after a complete line that violates a strict width
    /// constraint.
    Error(LayoutError),
}

/// The model of a render event, with the text by its characters.
pub enum EventModel<A> {
    Text(nat, Seq<char>),
    Linebreak,
    Padding(nat),
    PushAnnotation(A),
    PopAnnotation,
    /// Line number (one-indexed), maximal width, line width.
    Error(nat, nat, nat),
}

impl<'p, A> RenderEvent<'p, A> {
    /// The model of this event.
    pub open spec fn model(self) -> EventModel<A> {
        match self {
            RenderEvent::Text(w, s) => EventModel::Text(w as nat, s@),
            RenderEvent::Linebreak => EventModel::Linebreak,
            RenderEvent::Padding(n) => EventModel::Padding(n as nat),
            RenderEvent::PushAnnotation(a) => EventModel::PushAnnotation(a),
            RenderEvent::PopAnnotation => EventModel::PopAnnotation,
            RenderEvent::Error(LayoutError::WidthExceeded { line_num, max_width, line_width }) =>
                EventModel::Error(line_num as nat, max_width as nat, line_width as nat),
        }
    }
}

/// The model of an event whose annotation is borrowed.
pub open spec fn borrowed_model<'p, 'a, A>(e: RenderEvent<'p, &'a A>) -> EventModel<A> {
    match e {
        RenderEvent::Text(w, s) => EventModel::Text(w as nat, s@),
        RenderEvent::Linebreak => EventModel::Linebreak,
        RenderEvent::Padding(n) => EventModel::Padding(n as nat),
        RenderEvent::PushAnnotation(a) => EventModel::PushAnnotation(*a),
        RenderEvent::PopAnnotation => EventModel::PopAnnotation,
        RenderEvent::Error(LayoutError::WidthExceeded { line_num, max_width, line_width }) =>
            EventModel::Error(line_num as nat, max_width as nat, line_width as nat),
    }
}

/// The models of a list of events.
pub open spec fn models<'p, A>(events: Seq<RenderEvent<'p, A>>) -> Seq<EventModel<A>> {
    events.map_values(|e: RenderEvent<'p, A>| e.model())
}

/// `n` spaces.
pub open spec fn spaces(n: nat) -> Seq<char> {
    Seq::new(n, |i: int| ' ')
}

/// The text that an event adds to a plaintext rendering.
pub open spec fn event_text<A>(e: EventModel<A>) -> Seq<char> {
    match e {
        EventModel::Text(_, x) => x,
        EventModel::Linebreak => seq!['\n'],
        EventModel::Padding(n) => spaces(n),
        _ => seq![],
    }
}

/// Puts `text` in front of a rendering, unless it is an error.
pub open spec fn prepend(text: Seq<char>, r: Result<Seq<char>, (nat, nat, nat)>) -> Result<Seq<char>, (nat, nat, nat)> {
    match r {
        Ok(rest) => Ok(text.add(rest)),
        Err(e) => Err(e),
    }
}

/// The plaintext rendering of an event stream: the first error event, by
/// its line number, maximal width and line width, if there is one; else the
/// texts of the events, one after another. Annotations add nothing.
pub open spec fn plaintext<A>(evs: Seq<EventModel<A>>) -> Result<Seq<char>, (nat, nat, nat)>
    decreases evs.len(),
{
    if evs.len() == 0 {
        Ok(seq![])
    } else {
        match evs[0] {
            EventModel::Error(l, m, w) => Err((l, m, w)),
            e => prepend(event_text(e), plaintext(evs.drop_first())),
        }
    }
}

/// The texts of a list of events, one after another.
pub open spec fn texts<A>(evs: Seq<EventModel<A>>) -> Seq<char>
    decreases evs.len(),
{
    if evs.len() == 0 {
        seq![]
    } else {
        texts(evs.drop_last()).add(event_text(evs.last()))
    }
}

/// No event of the list is an error.
pub open spec fn no_error<A>(evs: Seq<EventModel<A>>) -> bool {
    forall|i: int| 0 <= i < evs.len() ==> !(#[trigger] evs[i] is Error)
}

/// Rendering a stream whose first `k` events hold no error renders their
/// texts, then the rest.
pub proof fn lemma_plaintext_split<A>(evs: Seq<EventModel<A>>, k: int)
    requires
        0 <= k <= evs.len(),
        no_error(evs.take(k)),
    ensures
        plaintext(evs) == prepend(texts(evs.take(k)), plaintext(evs.skip(k))),
    decreases k,
{
    if k == 0 {
        assert(evs.skip(0) =~= evs);
        assert(texts(evs.take(0)) =~= Seq::<char>::empty());
        match plaintext(evs) {
            Ok(x) => assert(seq![].add(x) =~= x),
            Err(_) => {},
        }
    } else {
        assert(evs.take(k - 1) =~= evs.take(k).take(k - 1));
        assert forall|i: int| 0 <= i < evs.take(k - 1).len() implies !(#[trigger] evs.take(k - 1)[i] is Error) by {
            assert(evs.take(k - 1)[i] == evs.take(k)[i]);
        }
        lemma_plaintext_split(evs, k - 1);
        let e = evs[k - 1];
        assert(evs.take(k)[k - 1] == e);
        assert(!(e is Error));
        assert(evs.skip(k - 1)[0] == e);
        assert(evs.skip(k - 1).drop_first() =~= evs.skip(k));
        assert(evs.take(k).drop_last() =~= evs.take(k - 1));
        assert(texts(evs.take(k)) == texts(evs.take(k - 1)).add(event_text(e)));
        match plaintext(evs.skip(k)) {
            Ok(x) => {
                assert(texts(evs.take(k - 1)).add(event_text(e).add(x)) =~= texts(evs.take(k)).add(x));
            },
            Err(_) => {},
        }
    }
}

/// The error of a rendering.
#[derive(Debug, Clone, PartialEq, Eq, Hash)]
pub enum RenderError {
    /// A layout error signalled in the event stream.
    LayoutError(LayoutError),
}

/// The model of a rendering result: the text, or the fields of the layout
/// error.
pub open spec fn render_model(r: Result<String, RenderError>) -> Result<Seq<char>, (nat, nat, nat)> {
    match r {
        Ok(s) => Ok(s@),
        Err(RenderError::LayoutError(LayoutError::WidthExceeded { line_num, max_width, line_width })) => Err(
            (line_num as nat, max_width as nat, line_width as nat),
        ),
    }
}

/// Marks the unit type and references to it: annotations that a plaintext
/// rendering can ignore. Not meant to be implemented elsewhere; map
/// annotations to the unit instead.
pub trait IsTrivial {}

impl IsTrivial for () {}

impl<'t, T: IsTrivial> IsTrivial for &'t T {}

impl<'t, T: IsTrivial> IsTrivial for &'t mut T {}

/// Renderers receive render events and stream or store the text of the
/// formatted document. The event stream must be well formed, as a layout
/// engine produces it.
pub trait Renderer<A> {
    /// What the end of rendering gives.
    type Finish;
    /// The error of rendering.
    type Error;

    /// Receives a render event.
    fn receive(&mut self, event: RenderEvent<'_, A>) -> Result<(), Self::Error>;

    /// Signals the end of the event stream.
    fn finish(&mut self) -> Result<Self::Finish, Self::Error>;

    /// Receives the events one after another, stopping at the first error,
    /// then signals the end of the stream.
    fn consume<'p>(&mut self, events: Vec<RenderEvent<'p, A>>) -> Result<Self::Finish, Self::Error> {
        let mut reversed = reverse_vec(events);
        while reversed.len() > 0
            decreases reversed@.len(),
        {
            let event = reversed.pop().unwrap();
            match self.receive(event) {
                Ok(()) => {},
                Err(err) => {
                    return Err(err);
                },
            }
        }
        self.finish()
    }
}

/// A renderer of plain text: appends the text of each event to its buffer,
/// and stops at the first layout error.
#[derive(Debug, Clone)]
pub struct PlaintextRenderer {
    pub inner: String,
}

impl Default for PlaintextRenderer {
    /// A renderer with an empty buffer.
    fn default() -> (r: Self)
        ensures
            r.inner@ == Seq::<char>::empty(),
    {
        PlaintextRenderer { inner: String::new() }
    }
}

impl PlaintextRenderer {
    /// A renderer that appends to the given buffer.
    pub fn new(inner: String) -> (r: Self)
        ensures
            r.inner@ == inner@,
    {
        PlaintextRenderer { inner }
    }

    /// Receives a render event: text, newlines and padding are appended;
    /// annotations are ignored; an error is returned.
    pub fn receive<B>(&mut self, event: RenderEvent<'_, B>) -> (r: Result<(), RenderError>)
        ensures
            match event {
                RenderEvent::Error(err) => {
                    &&& r == Err::<(), RenderError>(RenderError::LayoutError(err))
                    &&& final(self).inner@ == old(self).inner@
                },
                _ => {
                    &&& r is Ok
                    &&& final(self).inner@ == old(self).inner@.add(event_text(event.model()))
                },
            },
    {
        match event {
            RenderEvent::Text(_, payload) => {
                self.inner.append(payload);
            },
            RenderEvent::Linebreak => {
                proof {
                    reveal_strlit("\n");
                }
                self.inner.append("\n");
            },
            RenderEvent::Padding(num) => {
                proof {
                    reveal_strlit(" ");
                }
                let ghost start = self.inner@;
                let mut i: usize = 0;
                while i < num
                    invariant
                        i <= num,
                        self.inner@ == start.add(spaces(i as nat)),
                    decreases num - i,
                {
                    self.inner.append(" ");
                    proof {
                        reveal_strlit(" ");
                        assert(start.add(spaces(i as nat)).add(seq![' ']) =~= start.add(spaces((i + 1) as nat)));
                    }
                    i = i + 1;
                }
            },
            RenderEvent::PushAnnotation(_) => {
                proof {
                    assert(self.inner@.add(Seq::<char>::empty()) =~= self.inner@);
                }
            },
            RenderEvent::PopAnnotation => {
                proof {
                    assert(self.inner@.add(Seq::<char>::empty()) =~= self.inner@);
                }
            },
            RenderEvent::Error(e) => {
                return Err(RenderError::LayoutError(e));
            },
        }
        Ok(())
    }

    /// Ends the stream; the buffer needs no flushing.
    pub fn finish(&mut self) -> (r: Result<(), RenderError>)
        ensures
            r is Ok,
            final(self).inner@ == old(self).inner@,
    {
        Ok(())
    }

    /// Renders the remaining events of a layout into a new string, pulling
    /// them one at a time: on a layout error, no event after it is pulled.
    #[verifier::loop_isolation(false)]
    pub fn render_from<'doc, A>(layout: &mut LayoutEngine<'doc, A>) -> (r: Result<String, RenderError>)
        requires
            old(layout).wf(),
        ensures
            final(layout).wf(),
            final(layout).expected() == old(layout).expected(),
            render_model(r) == plaintext(old(layout).expected().skip(old(layout).produced().len() as int)),
            r is Ok ==> final(layout).produced() == final(layout).expected(),
            r is Err ==> {
                &&& old(layout).produced().len() < final(layout).produced().len()
                &&& final(layout).produced().last() is Error
                &&& no_error(final(layout).produced().subrange(
                    old(layout).produced().len() as int,
                    final(layout).produced().len() - 1,
                ))
            },
    {
        let ghost start = layout.produced().len();
        let ghost evs = layout.expected().skip(start as int);
        let mut renderer = PlaintextRenderer::new(String::new());
        proof {
            layout.lemma_produced_prefix();
            assert(evs.take(0) =~= Seq::<EventModel<A>>::empty());
        }
        loop
            invariant
                layout.wf(),
                layout.expected() == old(layout).expected(),
                start == old(layout).produced().len(),
                evs == layout.expected().skip(start as int),
                start <= layout.produced().len() <= layout.expected().len(),
                layout.produced() == layout.expected().take(layout.produced().len() as int),
                no_error(evs.take(layout.produced().len() - start)),
                renderer.inner@ == texts(evs.take(layout.produced().len() - start)),
            decreases layout.expected().len() - layout.produced().len(),
        {
            let ghost k = layout.produced().len() - start;
            let ghost before = renderer.inner@;
            match layout.next_event() {
                Some(e) => {
                    proof {
                        layout.lemma_produced_prefix();
                        assert(evs[k] == borrowed_model(e));
                    }
                    let received = renderer.receive(e);
                    match received {
                        Ok(()) => {
                            proof {
                                assert(!(evs[k] is Error));
                                assert(evs.take(k + 1).drop_last() =~= evs.take(k));
                                assert(evs.take(k + 1).last() == evs[k]);
                                assert(event_text(e.model()) == event_text(borrowed_model(e)));
                                assert forall|i: int| 0 <= i < evs.take(k + 1).len() implies !(#[trigger] evs.take(k + 1)[i] is Error) by {
                                    if i < k {
                                        assert(evs.take(k + 1)[i] == evs.take(k)[i]);
                                    }
                                }
                            }
                        },
                        Err(err) => {
                            proof {
                                layout.lemma_produced_prefix();
                                let p = layout.produced();
                                assert(p.last() == borrowed_model(e));
                                assert(p.subrange(start as int, p.len() - 1) =~= evs.take(k)) by {
                                    assert forall|i: int| 0 <= i < k implies p.subrange(start as int, p.len() - 1)[i] == evs.take(k)[i] by {
                                        assert(p[start + i] == layout.expected()[start + i]);
                                    }
                                }
                                lemma_plaintext_split(evs, k);
                                assert(evs.skip(k)[0] == evs[k]);
                                assert(evs.skip(k).len() > 0);
                                assert(render_model(Err(err)) == plaintext(evs.skip(k)));
                                assert(render_model(Err(err)) == plaintext(evs));
                            }
                            return Err(err);
                        },
                    }
                },
                None => {
                    proof {
                        lemma_plaintext_split(evs, k);
                        assert(evs.skip(k).len() == 0);
                        assert(plaintext(evs.skip(k)) == Ok::<Seq<char>, (nat, nat, nat)>(seq![]));
                        assert(renderer.inner@.add(Seq::<char>::empty()) =~= renderer.inner@);
                        assert(plaintext(evs) == Ok::<Seq<char>, (nat, nat, nat)>(renderer.inner@));
                    }
                    let out = renderer.inner;
                    return Ok(out);
                },
            }
        }
    }

    /// Renders the remaining events of a layout into a new string.
    pub fn render<'doc, A>(layout: LayoutEngine<'doc, A>) -> (r: Result<String, RenderError>)
        requires
            layout.wf(),
        ensures
            render_model(r) == plaintext(layout.expected().skip(layout.produced().len() as int)),
    {
        let mut layout = layout;
        Self::render_from(&mut layout)
    }

    /// Renders a list of events into a new string: the first error, if there
    /// is one; else the text of the events, one after another.
    pub fn render_events<'p, A>(events: Vec<RenderEvent<'p, A>>) -> (r: Result<String, RenderError>)
        ensures
            render_model(r) == plaintext(models(events@)),
    {
        let ghost evs = models(events@);
        let n = events.len();
        let mut reversed = reverse_vec(events);
        let mut renderer = PlaintextRenderer::new(String::new());
        let mut i: usize = 0;
        proof {
            assert(evs.take(0) =~= Seq::<EventModel<A>>::empty());
        }
        while i < n
            invariant
                evs == models(events@),
                n == evs.len(),
                i <= n,
                reversed@.len() == n - i,
                forall|k: int| 0 <= k < reversed@.len() ==> #[trigger] reversed@[k].model() == evs[n - 1 - k],
                no_error(evs.take(i as int)),
                renderer.inner@ == texts(evs.take(i as int)),
            decreases n - i,
        {
            let ghost before = reversed@;
            let e = reversed.pop().unwrap();
            proof {
                assert(e == before[before.len() - 1]);
                assert(e.model() == evs[i as int]);
                assert forall|k: int| 0 <= k < reversed@.len() implies #[trigger] reversed@[k].model() == evs[n - 1 - k] by {
                    assert(reversed@[k] == before[k]);
                }
            }
            match renderer.receive(e) {
                Ok(()) => {
                    proof {
                        assert(evs.take(i + 1).drop_last() =~= evs.take(i as int));
                        assert(evs.take(i + 1).last() == evs[i as int]);
                        assert forall|k: int| 0 <= k < evs.take(i + 1).len() implies !(#[trigger] evs.take(i + 1)[k] is Error) by {
                            if k < i {
                                assert(evs.take(i + 1)[k] == evs.take(i as int)[k]);
                            }
                        }
                    }
                },
                Err(err) => {
                    proof {
                        lemma_plaintext_split(evs, i as int);
                        assert(e is Error);
                        assert(evs.skip(i as int)[0] == evs[i as int]);
                        assert(evs.skip(i as int).len() > 0);
                        assert(render_model(Err(err)) == plaintext(evs.skip(i as int)));
                        assert(render_model(Err(err)) == plaintext(evs));
                    }
                    return Err(err);
                },
            }
            i = i + 1;
        }
        proof {
            assert(evs.take(n as int) =~= evs);
            lemma_plaintext_split(evs, n as int);
            assert(evs.skip(n as int).len() == 0);
            assert(plaintext(evs.skip(n as int)) == Ok::<Seq<char>, (nat, nat, nat)>(seq![]));
            assert(renderer.inner@.add(Seq::<char>::empty()) =~= renderer.inner@);
        }
        Ok(renderer.inner)
    }

    /// Renders the remaining events of a layout into a new string.
    pub fn render_to_string<'doc, A>(layout: LayoutEngine<'doc, A>) -> (r: Result<String, RenderError>)
        requires
            layout.wf(),
        ensures
            render_model(r) == plaintext(layout.expected().skip(layout.produced().len() as int)),
    {
        Self::render(layout)
    }
}

impl<A> Renderer<A> for PlaintextRenderer {
    type Finish = ();
    type Error = RenderError;

    /// Receives a render event: text, newlines and padding are appended;
    /// annotations are ignored; an error is returned.
    fn receive(&mut self, event: RenderEvent<'_, A>) -> (r: Result<(), RenderError>)
        ensures
            match event {
                RenderEvent::Error(err) => {
                    &&& r == Err::<(), RenderError>(RenderError::LayoutError(err))
                    &&& final(self).inner@ == old(self).inner@
                },
                _ => {
                    &&& r is Ok
                    &&& final(self).inner@ == old(self).inner@.add(event_text(event.model()))
                },
            },
    {
        PlaintextRenderer::receive(self, event)
    }

    /// Ends the stream; the buffer needs no flushing.
    fn finish(&mut self) -> (r: Result<(), RenderError>)
        ensures
            r is Ok,
            final(self).inner@ == old(self).inner@,
    {
        PlaintextRenderer::finish(self)
    }
}

/// The event with its annotation, if any, mapped by `f` (`b` being the
/// mapped annotation); every other event is kept.
pub open spec fn mapped_event<'p, A, B>(e: RenderEvent<'p, A>, m: RenderEvent<'p, B>, b_of: spec_fn(A, B) -> bool) -> bool {
    match e {
        RenderEvent::Text(w, x) => m == RenderEvent::<'p, B>::Text(w, x),
        RenderEvent::Linebreak => m is Linebreak,
        RenderEvent::Padding(n) => m == RenderEvent::<'p, B>::Padding(n),
        RenderEvent::PushAnnotation(a) => m matches RenderEvent::PushAnnotation(b) && b_of(a, b),
        RenderEvent::PopAnnotation => m is PopAnnotation,
        RenderEvent::Error(err) => m == RenderEvent::<'p, B>::Error(err),
    }
}

impl<'p, A> RenderEvent<'p, A> {
    /// The event with its annotation mapped by the closure; other events are
    /// kept as they are.
    pub fn map_annotation<B, F: Fn(A) -> B>(self, closure: &F) -> (r: RenderEvent<'p, B>)
        requires
            forall|a: A| closure.requires((a,)),
        ensures
            mapped_event(self, r, |a: A, b: B| closure.ensures((a,), b)),
    {
        match self {
            RenderEvent::PushAnnotation(annotation) => RenderEvent::PushAnnotation(closure(annotation)),
            RenderEvent::Text(span, payload) => RenderEvent::Text(span, payload),
            RenderEvent::Linebreak => RenderEvent::Linebreak,
            RenderEvent::Padding(num) => RenderEvent::Padding(num),
            RenderEvent::PopAnnotation => RenderEvent::PopAnnotation,
            RenderEvent::Error(error) => RenderEvent::Error(error),
        }
    }

    /// The event with its annotation, if any, replaced by the unit.
    pub fn strip_annotation(self) -> (r: RenderEvent<'p, ()>)
        ensures
            mapped_event(self, r, |a: A, b: ()| true),
    {
        match self {
            RenderEvent::PushAnnotation(_) => RenderEvent::PushAnnotation(()),
            RenderEvent::Text(span, payload) => RenderEvent::Text(span, payload),
            RenderEvent::Linebreak => RenderEvent::Linebreak,
            RenderEvent::Padding(num) => RenderEvent::Padding(num),
            RenderEvent::PopAnnotation => RenderEvent::PopAnnotation,
            RenderEvent::Error(error) => RenderEvent::Error(error),
        }
    }
}

/// The events of a layout with their annotations mapped by a closure.
pub struct RenderAdaptor<'doc, A, F> {
    layout: LayoutEngine<'doc, A>,
    closure: F,
}

impl<'doc, A, F> RenderAdaptor<'doc, A, F> {
    /// The layout whose events are mapped.
    pub closed spec fn layout(self) -> LayoutEngine<'doc, A> {
        self.layout
    }

    /// The closure that maps annotations.
    pub closed spec fn closure(self) -> F {
        self.closure
    }

    /// Maps the annotations of the layout's events by the closure.
    pub fn new(layout: LayoutEngine<'doc, A>, closure: F) -> (r: Self)
        ensures
            r.layout() == layout,
            r.closure() == closure,
    {
        RenderAdaptor { layout, closure }
    }

    /// The next event of the layout, its annotation mapped; `None` when the
    /// layout is complete.
    pub fn next_event<B>(&mut self) -> (r: Option<RenderEvent<'doc, B>>) where F: Fn(&'doc A) -> B
        requires
            old(self).layout().wf(),
            forall|a: &'doc A| old(self).closure().requires((a,)),
        ensures
            final(self).layout().wf(),
            final(self).closure() == old(self).closure(),
            final(self).layout().expected() == old(self).layout().expected(),
            match r {
                Some(m) => {
                    &&& old(self).layout().produced().len() < old(self).layout().expected().len()
                    &&& final(self).layout().produced() == old(self).layout().produced().push(
                        old(self).layout().expected()[old(self).layout().produced().len() as int],
                    )
                    &&& exists|e: RenderEvent<'doc, &'doc A>|
                        borrowed_model(e) == old(self).layout().expected()[old(self).layout().produced().len() as int]
                        && mapped_event(e, m, |a: &'doc A, b: B| old(self).closure().ensures((a,), b))
                },
                None => {
                    &&& old(self).layout().produced() == old(self).layout().expected()
                    &&& final(self).layout().produced() == old(self).layout().produced()
                },
            },
    {
        match self.layout.next_event() {
            Some(e) => {
                proof {
                    assert forall|a: &'doc A| #[trigger] self.closure.requires((a,)) by {
                        assert(old(self).closure().requires((a,)));
                    }
                }
                let m = e.map_annotation(&self.closure);
                Some(m)
            },
            None => None,
        }
    }
}

/// Chains an annotation mapping onto a stream of render events.
pub trait RenderAdaptorExt<'doc, A>: Sized {
    /// The events of the stream with their annotations mapped by the
    /// closure.
    fn map_annotation<F>(self, closure: F) -> RenderAdaptor<'doc, A, F>;
}

impl<'doc, A> RenderAdaptorExt<'doc, A> for LayoutEngine<'doc, A> {
    fn map_annotation<F>(self, closure: F) -> (r: RenderAdaptor<'doc, A, F>)
        ensures
            r.layout() == self,
            r.closure() == closure,
    {
        RenderAdaptor::new(self, closure)
    }
}

} // verus!
