use groupnest::document::{BreakStatus, Document, Sequence, TextFragment};
use groupnest::layout::{LayoutMode, LayoutSettings, LayoutWidthConstraint};
use groupnest::renderer::{LayoutError, RenderEvent};
use groupnest::{Arena, ArcDoc, ArcDocBuilder, BoxDoc, GroupPolicy, RefDocBuilder};

fn strict(max_width: usize) -> LayoutSettings {
    LayoutSettings {
        min_width: 0,
        max_width,
        width_constraint: LayoutWidthConstraint::Strict,
        initial_mode: LayoutMode::Broken,
    }
}

/// A sequence built by hand, keeping its nil children.
fn raw_sequence(children: Vec<BoxDoc<()>>) -> BoxDoc<()> {
    BoxDoc(Box::new(Document::Sequence(Sequence::new(children))))
}

#[test]
fn into_arc_drops_nil_children() {
    let doc = raw_sequence(vec![BoxDoc::nil(), BoxDoc::flat_text("a"), BoxDoc::nil()]);
    let arc = doc.into_arc();
    assert_eq!(arc.into_box(), BoxDoc::flat_text("a"));
}

#[test]
fn into_arc_removes_nest_around_nil() {
    let doc = BoxDoc(Box::new(Document::Nest(4, raw_sequence(vec![BoxDoc::nil(), BoxDoc::nil()]))));
    let arc = doc.into_arc();
    assert_eq!(arc.into_box(), BoxDoc::nil());
}

#[test]
fn into_arc_keeps_a_sequence_of_two() {
    let doc = raw_sequence(vec![BoxDoc::flat_text("a"), BoxDoc::nil(), BoxDoc::flat_text("b")]);
    let arc = doc.into_arc();
    let expected = BoxDoc::sequence(vec![BoxDoc::flat_text("a"), BoxDoc::flat_text("b")]);
    assert_eq!(arc.into_box(), expected);
}

#[test]
fn into_box_rebuilds_a_shared_node_whole() {
    let builder = ArcDocBuilder::<()>::new();
    let leaf = builder.flat_text("x");
    let doc = builder.group(leaf.clone());
    let shared = doc.clone();
    let boxed = doc.into_box();
    assert_eq!(boxed, BoxDoc::group(BoxDoc::flat_text("x"), GroupPolicy::Normal));
    assert_eq!(shared.to_box(), boxed);
}

#[test]
fn sequence_children_are_given_back() {
    let children: Vec<BoxDoc<()>> = vec![BoxDoc::nil(), BoxDoc::flat_text("a"), BoxDoc::hard_linebreak()];
    let sequence = Sequence::new(children.clone());
    assert_eq!(sequence.children(), &children);
    assert_eq!(sequence.into_children(), children);
}

#[test]
fn sequence_status_is_the_sum_or_must_break() {
    let flat = Sequence::new(vec![BoxDoc::<()>::flat_text("ab"), BoxDoc::nil(), BoxDoc::flat_text("cde")]);
    assert_eq!(flat.status(), BreakStatus::FlatLength(5));
    let empty = Sequence::<()>::new(vec![]);
    assert_eq!(empty.status(), BreakStatus::FlatLength(0));
    let broken = Sequence::new(vec![BoxDoc::<()>::flat_text("ab"), BoxDoc::hard_linebreak()]);
    assert_eq!(broken.status(), BreakStatus::MustBreak);
    assert!(!broken.layout_mode_observable());
    let observable = Sequence::new(vec![BoxDoc::<()>::flat_text("ab"), BoxDoc::breaker(" ", "\n")]);
    assert!(observable.layout_mode_observable());
}

#[test]
fn grouped_sequence_is_a_group_of_the_sequence() {
    let nils = BoxDoc::<()>::grouped_sequence(vec![BoxDoc::nil(), BoxDoc::nil()], GroupPolicy::ForceBreak);
    assert_eq!(nils, BoxDoc::group(BoxDoc::nil(), GroupPolicy::ForceBreak));
    let one = BoxDoc::<()>::grouped_sequence_with(
        GroupPolicy::FlatIfPossible,
        vec![BoxDoc::nil(), BoxDoc::flat_text("a")],
    );
    assert_eq!(one, BoxDoc::group_with(GroupPolicy::FlatIfPossible, BoxDoc::flat_text("a")));
}

#[test]
fn broken_payload_has_one_newline_per_sequence() {
    let doc = BoxDoc::<()>::breaker("", "a\r\nb\n\rc");
    let Document::Break(b) = &*doc.0 else {
        panic!("a break node was expected");
    };
    let newlines = b.broken().iter().filter(|f| matches!(f, TextFragment::Linebreak)).count();
    assert_eq!(newlines, 3);
    for fragment in b.broken().iter() {
        if let TextFragment::Text(t) = fragment {
            assert!(!t.inner().contains('\t'));
            assert!(!t.inner().contains('\n'));
            assert!(!t.inner().contains('\r'));
        }
    }
}

#[test]
fn strict_error_carries_the_line_width() {
    let doc = BoxDoc::<()>::sequence(vec![
        BoxDoc::flat_text("ab"),
        BoxDoc::hard_linebreak(),
        BoxDoc::nest(2, BoxDoc::sequence(vec![BoxDoc::hard_linebreak(), BoxDoc::flat_text("wxyz")])),
    ]);
    let events = doc.as_layout_with(strict(5)).collect_events();
    assert_eq!(events.len(), 6);
    assert!(matches!(events[0], RenderEvent::Text(2, "ab")));
    assert!(matches!(events[1], RenderEvent::Linebreak));
    assert!(matches!(events[2], RenderEvent::Linebreak));
    assert!(matches!(events[3], RenderEvent::Padding(2)));
    assert!(matches!(events[4], RenderEvent::Text(4, "wxyz")));
    assert!(matches!(
        events[5],
        RenderEvent::Error(LayoutError::WidthExceeded { line_num: 3, max_width: 5, line_width: 6 })
    ));
}

#[test]
fn strict_error_follows_the_newline_of_a_wide_line() {
    let doc = BoxDoc::<()>::sequence(vec![
        BoxDoc::flat_text("abcdef"),
        BoxDoc::hard_linebreak(),
        BoxDoc::flat_text("g"),
    ]);
    let events = doc.as_layout_with(strict(5)).collect_events();
    assert_eq!(events.len(), 4);
    assert!(matches!(events[1], RenderEvent::Linebreak));
    assert!(matches!(
        events[2],
        RenderEvent::Error(LayoutError::WidthExceeded { line_num: 1, max_width: 5, line_width: 6 })
    ));
}

#[test]
fn checked_intersperse_of_each_handle() {
    let boxed = BoxDoc::<()>::try_sequence_intersperse_with(
        vec![BoxDoc::flat_text("a"), BoxDoc::nil(), BoxDoc::flat_text("b")],
        BoxDoc::flat_text(","),
    );
    assert_eq!(boxed.unwrap().to_plaintext().unwrap(), "a,b");

    let with_nil = BoxDoc::<()>::try_sequence_intersperse_with(
        vec![BoxDoc::flat_text("a"), BoxDoc::flat_text("b")],
        BoxDoc::nil(),
    );
    assert_eq!(with_nil.unwrap().to_plaintext().unwrap(), "ab");

    let builder = ArcDocBuilder::<()>::new();
    let arc = builder
        .try_sequence_intersperse_with(vec![builder.flat_text("a"), builder.flat_text("b")], builder.flat_text("-"))
        .unwrap();
    assert_eq!(arc.to_plaintext().unwrap(), "a-b");
    let arc2: ArcDoc<()> = ArcDoc::try_sequence_intersperse_with(
        vec![builder.flat_text("c"), builder.nil(), builder.flat_text("d")],
        builder.flat_text("+"),
    )
    .unwrap();
    assert_eq!(arc2.to_plaintext().unwrap(), "c+d");

    let arena = Arena::new();
    let refs: RefDocBuilder<'_, ()> = RefDocBuilder::new(&arena);
    let r = refs
        .try_sequence_intersperse_with(vec![refs.flat_text("x"), refs.flat_text("y")], refs.flat_text(";"))
        .unwrap();
    assert_eq!(r.to_plaintext().unwrap(), "x;y");
}

#[test]
fn into_arc_renders_an_empty_nest_before_an_annotation_differently() {
    let settings = || LayoutSettings {
        min_width: 0,
        max_width: 100,
        width_constraint: LayoutWidthConstraint::Relaxed,
        initial_mode: LayoutMode::Broken,
    };
    let doc = raw_sequence(vec![
        BoxDoc(Box::new(Document::Nest(2, BoxDoc::nil()))),
        BoxDoc::annotation((), BoxDoc::flat_text("x")),
    ]);
    assert_eq!(doc.to_plaintext_with(settings()).unwrap(), "  x");
    let arc = doc.into_arc();
    assert_eq!(arc.to_plaintext_with(settings()).unwrap(), "x");
}
