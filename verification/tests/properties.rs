use std::sync::Arc;

use groupnest::document::{Break, BreakNodeInvalid, ContainsTab, FlatFragment, FragmentError};
use groupnest::layout::{LayoutMode, LayoutSettings, LayoutWidthConstraint};
use groupnest::renderer::{LayoutError, RenderError, RenderEvent};
use groupnest::{Arena, ArcDocBuilder, BoxDoc, GroupPolicy, PlaintextRenderer, RefDocBuilder, RenderAdaptorExt};

fn settings(max_width: usize, width_constraint: LayoutWidthConstraint) -> LayoutSettings {
    LayoutSettings {
        min_width: 0,
        max_width,
        width_constraint,
        initial_mode: LayoutMode::Flat,
    }
}

/// A document that breaks, nests and holds wide characters.
fn sample() -> BoxDoc<()> {
    BoxDoc::grouped_sequence(
        vec![
            BoxDoc::flat_text("你好"),
            BoxDoc::nest(
                4,
                BoxDoc::sequence(vec![BoxDoc::breaker(" ", "\n"), BoxDoc::flat_text("abc")]),
            ),
            BoxDoc::breaker("", "\n"),
            BoxDoc::flat_text("}"),
        ],
        GroupPolicy::Normal,
    )
}

#[test]
fn padding_is_followed_by_text() {
    let doc = sample();
    let events = doc.as_layout_with(settings(3, LayoutWidthConstraint::Relaxed)).collect_events();
    assert_eq!(
        events,
        vec![
            RenderEvent::Text(4, "你好"),
            RenderEvent::Linebreak,
            RenderEvent::Padding(4),
            RenderEvent::Text(3, "abc"),
            RenderEvent::Linebreak,
            RenderEvent::Text(1, "}"),
        ]
    );
    for (i, event) in events.iter().enumerate() {
        if let RenderEvent::Padding(_) = event {
            assert!(matches!(events[i + 1], RenderEvent::Text(_, _)));
        }
        if let RenderEvent::Text(width, text) = event {
            assert!(!text.is_empty());
            assert_eq!(*width, FlatFragment::new((*text).into()).unwrap().unicode_width());
        }
    }
}

#[test]
fn relaxed_constraint_never_errors() {
    let doc = sample();
    let result = doc.to_plaintext_with(settings(0, LayoutWidthConstraint::Relaxed));
    assert_eq!(result.unwrap(), "你好\n    abc\n}");
}

#[test]
fn strict_constraint_reports_the_first_long_line() {
    let doc = sample();
    let result = doc.to_plaintext_with(settings(5, LayoutWidthConstraint::Strict)).unwrap_err();
    assert_eq!(
        result,
        RenderError::LayoutError(LayoutError::WidthExceeded { line_num: 2, max_width: 5, line_width: 7 })
    );
}

#[test]
fn annotations_come_in_pairs() {
    let doc: BoxDoc<u8> = BoxDoc::annotation(
        1,
        BoxDoc::sequence(vec![
            BoxDoc::flat_text("a"),
            BoxDoc::annotation(2, BoxDoc::flat_text("b")),
            BoxDoc::annotation(3, BoxDoc::nil()),
        ]),
    );
    let events = doc.as_layout().collect_events();
    let mut depth: usize = 0;
    for event in &events {
        match event {
            RenderEvent::PushAnnotation(_) => depth += 1,
            RenderEvent::PopAnnotation => depth -= 1,
            _ => {}
        }
    }
    assert_eq!(depth, 0);
    assert_eq!(
        events,
        vec![
            RenderEvent::PushAnnotation(&1),
            RenderEvent::Text(1, "a"),
            RenderEvent::PushAnnotation(&2),
            RenderEvent::Text(1, "b"),
            RenderEvent::PopAnnotation,
            RenderEvent::PushAnnotation(&3),
            RenderEvent::PopAnnotation,
            RenderEvent::PopAnnotation,
        ]
    );
}

#[test]
fn clone_lays_out_alike() {
    let doc: BoxDoc<String> = BoxDoc::annotation(String::from("x"), sample_with_strings());
    let copy = doc.clone();
    assert_eq!(copy, doc);
    assert_eq!(copy.as_layout().collect_events(), doc.as_layout().collect_events());
    assert_eq!(copy.to_plaintext(), doc.to_plaintext());
}

fn sample_with_strings() -> BoxDoc<String> {
    BoxDoc::group(
        BoxDoc::sequence(vec![BoxDoc::flat_text("a"), BoxDoc::breaker(" ", "\n"), BoxDoc::flat_text("b")]),
        GroupPolicy::ForceBreak,
    )
}

#[test]
fn flat_if_possible_has_no_linebreak() {
    let doc: BoxDoc<()> = BoxDoc::group(
        BoxDoc::sequence(vec![
            BoxDoc::flat_text("abc"),
            BoxDoc::group(BoxDoc::breaker(" ", "\n"), GroupPolicy::Normal),
            BoxDoc::flat_text("def"),
        ]),
        GroupPolicy::FlatIfPossible,
    );
    let events = doc.as_layout_with(settings(1, LayoutWidthConstraint::Relaxed)).collect_events();
    assert!(!events.contains(&RenderEvent::Linebreak));
    assert_eq!(doc.to_plaintext_with(settings(1, LayoutWidthConstraint::Relaxed)).unwrap(), "abc def");
}

#[test]
fn fragment_errors() {
    assert_eq!(
        FlatFragment::new("a\r\nb".into()),
        Err(FragmentError::ContainsLinebreak(String::from("\r\n"), 1, String::from("a\r\nb")))
    );
    assert_eq!(
        FlatFragment::new("ab\tc".into()),
        Err(FragmentError::ContainsTab(ContainsTab::ContainsTab(2, String::from("ab\tc"))))
    );
    assert_eq!(FlatFragment::new("plain".into()).unwrap().inner(), "plain");
}

#[test]
fn break_errors() {
    assert_eq!(Break::new(" ".into(), "no newline".into()), Err(BreakNodeInvalid::BrokenPayloadHasNoNewline));
    assert_eq!(
        Break::new("a\nb".into(), "\n".into()),
        Err(BreakNodeInvalid::FragmentError(FragmentError::ContainsLinebreak(
            String::from("\n"),
            1,
            String::from("a\nb")
        )))
    );
    assert!(Break::new(" ".into(), "\n".into()).is_ok());
}

#[test]
fn text_with_tab_is_refused() {
    assert_eq!(
        BoxDoc::<()>::from_text_("x\ty"),
        Err(ContainsTab::ContainsTab(1, String::from("x\ty")))
    );
}

#[test]
fn plaintext_renderer_receives() {
    let mut renderer = PlaintextRenderer::new(String::from(">"));
    assert!(renderer.receive(RenderEvent::<()>::Padding(3)).is_ok());
    assert!(renderer.receive(RenderEvent::<()>::Text(2, "ab")).is_ok());
    assert!(renderer.receive(RenderEvent::PushAnnotation(7u8)).is_ok());
    assert!(renderer.receive(RenderEvent::<()>::Linebreak).is_ok());
    let error = LayoutError::WidthExceeded { line_num: 1, max_width: 2, line_width: 3 };
    assert_eq!(
        renderer.receive(RenderEvent::<()>::Error(error.clone())),
        Err(RenderError::LayoutError(error))
    );
    assert_eq!(renderer.inner, ">   ab\n");
}

#[test]
fn map_annotation_keeps_other_events() {
    let doc: BoxDoc<String> = BoxDoc::annotation(String::from("four"), BoxDoc::flat_text("x"));
    let mut mapped = doc.as_layout().map_annotation(|a: &String| a.len());
    let mut events = Vec::new();
    while let Some(event) = mapped.next_event() {
        events.push(event);
    }
    assert_eq!(
        events,
        vec![RenderEvent::PushAnnotation(4), RenderEvent::Text(1, "x"), RenderEvent::PopAnnotation]
    );
    assert_eq!(RenderEvent::PushAnnotation(5u8).strip_annotation(), RenderEvent::PushAnnotation(()));
}

#[test]
fn builders_share_equal_leaves() {
    let arena = Arena::new();
    let builder: RefDocBuilder<'_, ()> = RefDocBuilder::new(&arena);
    assert!(std::ptr::eq(builder.nil().0, builder.nil().0));
    assert!(std::ptr::eq(builder.flat_text("a").0, builder.flat_text("a").0));
    assert!(!std::ptr::eq(builder.flat_text("a").0, builder.flat_text("b").0));

    let arc_builder: ArcDocBuilder<()> = ArcDocBuilder::new();
    assert!(Arc::ptr_eq(&arc_builder.hard_linebreak().0, &arc_builder.hard_linebreak().0));
    assert!(Arc::ptr_eq(&arc_builder.breaker(" ", "\n").0, &arc_builder.breaker(" ", "\n").0));
}

#[test]
fn intersperse_skips_nil_children() {
    let doc: BoxDoc<()> = BoxDoc::sequence_intersperse_with(
        vec![BoxDoc::flat_text("a"), BoxDoc::nil(), BoxDoc::flat_text("b"), BoxDoc::flat_text("c")],
        BoxDoc::flat_text(", "),
    );
    assert_eq!(doc.to_plaintext().unwrap(), "a, b, c");
    let arena = Arena::new();
    let builder: RefDocBuilder<'_, ()> = RefDocBuilder::new(&arena);
    let doc = builder.sequence_intersperse_with(
        vec![builder.nil(), builder.flat_text("x"), builder.flat_text("y")],
        builder.flat_text("-"),
    );
    assert_eq!(doc.to_plaintext().unwrap(), "x-y");
}

#[test]
fn normal_group_uses_space_left_on_line() {
    let doc: BoxDoc<()> = BoxDoc::sequence(vec![
        BoxDoc::flat_text("abc"),
        BoxDoc::grouped_sequence_with(
            GroupPolicy::Normal,
            vec![BoxDoc::flat_text("d"), BoxDoc::breaker(" ", "\n"), BoxDoc::flat_text("e")],
        ),
    ]);
    assert_eq!(doc.to_plaintext_with(settings(5, LayoutWidthConstraint::Relaxed)).unwrap(), "abcd\ne");
    assert_eq!(doc.to_plaintext_with(settings(6, LayoutWidthConstraint::Relaxed)).unwrap(), "abcd e");
}

#[test]
fn nest_exit_padding_not_counted() {
    let doc: BoxDoc<()> = BoxDoc::sequence(vec![
        BoxDoc::from_text("o\n"),
        BoxDoc::nest(4, BoxDoc::from_text("i\n")),
        BoxDoc::flat_text("}}"),
        BoxDoc::hard_linebreak(),
    ]);
    let s = LayoutSettings {
        min_width: 0,
        max_width: 5,
        width_constraint: LayoutWidthConstraint::Strict,
        initial_mode: LayoutMode::Broken,
    };
    assert_eq!(doc.to_plaintext_with(s).unwrap(), "o\n    i\n}}\n");
}

#[test]
fn strict_reports_a_wide_last_line() {
    let doc: BoxDoc<()> = BoxDoc::sequence(vec![
        BoxDoc::flat_text("ab"),
        BoxDoc::hard_linebreak(),
        BoxDoc::flat_text("abcdef"),
    ]);
    let result = doc.to_plaintext_with(settings(3, LayoutWidthConstraint::Strict));
    assert_eq!(
        result,
        Err(RenderError::LayoutError(LayoutError::WidthExceeded { line_num: 2, max_width: 3, line_width: 6 }))
    );
    let events = doc.as_layout_with(settings(3, LayoutWidthConstraint::Strict)).collect_events();
    assert_eq!(
        events.last(),
        Some(&RenderEvent::Error(LayoutError::WidthExceeded { line_num: 2, max_width: 3, line_width: 6 }))
    );
}

#[test]
fn render_events_of_any_stream() {
    let events: Vec<RenderEvent<u8>> = vec![
        RenderEvent::PushAnnotation(1),
        RenderEvent::Text(2, "ab"),
        RenderEvent::Linebreak,
        RenderEvent::Padding(2),
        RenderEvent::Text(1, "c"),
        RenderEvent::PopAnnotation,
    ];
    assert_eq!(PlaintextRenderer::render_events(events), Ok(String::from("ab\n  c")));
    let error = LayoutError::WidthExceeded { line_num: 1, max_width: 1, line_width: 2 };
    let events: Vec<RenderEvent<()>> = vec![
        RenderEvent::Text(2, "ab"),
        RenderEvent::Linebreak,
        RenderEvent::Error(error.clone()),
        RenderEvent::Text(1, "c"),
    ];
    assert_eq!(PlaintextRenderer::render_events(events), Err(RenderError::LayoutError(error)));
}

#[test]
fn text_renders_back_with_newlines_normalised() {
    let doc: BoxDoc<()> = BoxDoc::from_text("a\r\nb\n\u{2029}é");
    assert_eq!(doc.to_plaintext().unwrap(), "a\nb\n\né");
}

#[test]
fn checked_constructors() {
    let doc = BoxDoc::<()>::try_sequence(vec![BoxDoc::flat_text("a"), BoxDoc::nil(), BoxDoc::flat_text("b")]).unwrap();
    assert_eq!(doc.to_plaintext().unwrap(), "ab");
    let wide = BoxDoc::<()>::try_sequence(vec![BoxDoc::flat_text("a"), BoxDoc::hard_linebreak()]);
    assert!(wide.is_some());
    assert_eq!(
        BoxDoc::<()>::try_from_text("x\ty"),
        Some(Err(ContainsTab::ContainsTab(1, String::from("x\ty"))))
    );
    let text = BoxDoc::<()>::try_from_text("a\nb").unwrap().unwrap();
    assert_eq!(text.to_plaintext().unwrap(), "a\nb");
}

#[test]
fn render_from_stops_after_the_error() {
    let doc: BoxDoc<()> = BoxDoc::sequence(vec![
        BoxDoc::flat_text("abcd"),
        BoxDoc::hard_linebreak(),
        BoxDoc::flat_text("e"),
    ]);
    let mut layout = doc.as_layout_with(settings(3, LayoutWidthConstraint::Strict));
    let result = PlaintextRenderer::render_from(&mut layout);
    assert_eq!(
        result,
        Err(RenderError::LayoutError(LayoutError::WidthExceeded { line_num: 1, max_width: 3, line_width: 4 }))
    );
    assert_eq!(layout.next_event(), Some(RenderEvent::Text(1, "e")));
    assert_eq!(layout.next_event(), None);
}

fn needs_trivial<T: groupnest::renderer::IsTrivial>(_: T) -> bool {
    true
}

#[test]
fn unit_annotations_are_trivial() {
    assert!(needs_trivial(()));
    assert!(needs_trivial(&()));
}

#[test]
fn checked_constructors_of_shared_and_arena_documents() {
    let arc_builder: ArcDocBuilder<()> = ArcDocBuilder::new();
    let shared = arc_builder.try_sequence(vec![arc_builder.flat_text("a"), arc_builder.flat_text("b")]).unwrap();
    assert_eq!(shared.to_plaintext().unwrap(), "ab");
    let from_text = arc_builder.try_from_text("x\ny").unwrap().unwrap();
    assert_eq!(from_text.to_plaintext().unwrap(), "x\ny");
    assert!(groupnest::ArcDoc::<()>::try_sequence(vec![groupnest::ArcDoc::nil()]).is_some());

    let arena = Arena::new();
    let builder: RefDocBuilder<'_, ()> = RefDocBuilder::new(&arena);
    let doc = builder.try_sequence(vec![builder.flat_text("c"), builder.hard_linebreak(), builder.flat_text("d")]).unwrap();
    assert_eq!(doc.to_plaintext().unwrap(), "c\nd");
    assert_eq!(
        builder.try_from_text("\t").map(|r| r.map(|d| d.to_plaintext())),
        Some(Err(ContainsTab::ContainsTab(0, String::from("\t"))))
    );
}

#[test]
fn flat_fragment_keeps_its_payload_as_given() {
    let text = String::from("abc");
    let borrowed = FlatFragment::new(std::borrow::Cow::Borrowed(text.as_str())).unwrap();
    let inner = borrowed.into_inner();
    assert!(matches!(inner, std::borrow::Cow::Borrowed("abc")));
    let owned = FlatFragment::new(std::borrow::Cow::Owned(String::from("def"))).unwrap();
    let inner = owned.into_inner();
    assert!(matches!(&inner, std::borrow::Cow::Owned(s) if s == "def"));
}

#[test]
fn text_fragments_borrow_from_a_borrowed_text() {
    let text = String::from("ab\ncd");
    let fragments = groupnest::document::TextFragment::from_text(std::borrow::Cow::Borrowed(text.as_str())).unwrap();
    assert_eq!(fragments.len(), 3);
    for fragment in fragments {
        if let groupnest::document::TextFragment::Text(f) = fragment {
            assert!(matches!(f.into_inner(), std::borrow::Cow::Borrowed(_)));
        }
    }
}
