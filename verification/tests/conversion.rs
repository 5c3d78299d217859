use groupnest::layout::{LayoutMode, LayoutSettings, LayoutWidthConstraint};
use groupnest::{ArcDoc, ArcDocBuilder, Arena, BoxDoc, RefDocBuilder};

const DEFAULT_SETTINGS: LayoutSettings = LayoutSettings {
    min_width: 20,
    max_width: 100,
    width_constraint: LayoutWidthConstraint::Relaxed,
    initial_mode: LayoutMode::Flat,
};

/// Builds the same document as a `BoxDoc` and through an `ArcDocBuilder`,
/// converts each to the other representation, and compares the renderings.
fn compare_all(make_box: impl Fn() -> BoxDoc<()>, make_arc: impl Fn(&ArcDocBuilder<()>) -> ArcDoc<()>) {
    let boxed = make_box();
    let expected = boxed.to_plaintext_with(DEFAULT_SETTINGS);

    let builder = ArcDocBuilder::new();
    let arc = make_arc(&builder);
    assert_eq!(arc.to_plaintext_with(DEFAULT_SETTINGS), expected);

    let box_to_arc = make_box().into_arc();
    assert_eq!(box_to_arc.to_plaintext_with(DEFAULT_SETTINGS), expected);

    let box_to_arc_with = make_box().into_arc_with(&ArcDocBuilder::new());
    assert_eq!(box_to_arc_with.to_plaintext_with(DEFAULT_SETTINGS), expected);

    let arc_to_box = make_arc(&ArcDocBuilder::new()).to_box();
    assert_eq!(arc_to_box.to_plaintext_with(DEFAULT_SETTINGS), expected);

    let arc_into_box = make_arc(&ArcDocBuilder::new()).into_box();
    assert_eq!(arc_into_box.to_plaintext_with(DEFAULT_SETTINGS), expected);
    assert_eq!(arc_into_box, make_box());

    let arena = Arena::new();
    let ref_builder: RefDocBuilder<'_, ()> = RefDocBuilder::new(&arena);
    let box_to_ref = make_box().into_ref_with(&ref_builder);
    assert_eq!(box_to_ref.to_plaintext_with(DEFAULT_SETTINGS), expected);

    let ref_to_box = box_to_ref.to_box();
    assert_eq!(ref_to_box.to_plaintext_with(DEFAULT_SETTINGS), expected);
    assert_eq!(ref_to_box, make_box());

    let arc_to_ref = make_arc(&ArcDocBuilder::new()).into_box().into_ref_with(&ref_builder);
    assert_eq!(arc_to_ref.to_plaintext_with(DEFAULT_SETTINGS), expected);

    let ref_to_arc = box_to_ref.to_box().into_arc();
    assert_eq!(ref_to_arc.to_plaintext_with(DEFAULT_SETTINGS), expected);
}

fn numbers_box() -> Vec<BoxDoc<()>> {
    (1..10).map(|inner| BoxDoc::flat_text(&inner.to_string())).collect::<Vec<_>>()
}

fn numbers_arc(builder: &ArcDocBuilder<()>) -> Vec<ArcDoc<()>> {
    (1..10).map(|inner| builder.flat_text(&inner.to_string())).collect::<Vec<_>>()
}

#[test]
fn conversion_nil() {
    compare_all(BoxDoc::nil, |builder| builder.nil());
}

#[test]
fn conversion_text() {
    let text = "Lorem ipsum dolor sit amet";
    compare_all(|| BoxDoc::flat_text(text), |builder| builder.flat_text(text));
}

#[test]
fn conversion_break() {
    let flat = "but if you";
    let broken = "close\nyour\neyes";
    compare_all(|| BoxDoc::breaker(flat, broken), |builder| builder.breaker(flat, broken));
}

#[test]
fn conversion_hard_linebreak() {
    compare_all(BoxDoc::hard_linebreak, |builder| builder.hard_linebreak());
}

#[test]
fn conversion_sequence() {
    compare_all(
        || BoxDoc::sequence_intersperse_with(numbers_box(), BoxDoc::breaker(", ", ",\n")),
        |builder| builder.sequence_intersperse_with(numbers_arc(builder), builder.breaker(", ", ",\n")),
    );
}

#[test]
fn conversion_group() {
    compare_all(
        || {
            let inner = BoxDoc::sequence_intersperse_with(numbers_box(), BoxDoc::breaker(", ", ",\n"));
            BoxDoc::grouped_sequence_with(
                groupnest::GroupPolicy::Normal,
                vec![BoxDoc::flat_text("["), inner, BoxDoc::breaker("]", ",\n]")],
            )
        },
        |builder| {
            let inner = builder.sequence_intersperse_with(numbers_arc(builder), builder.breaker(", ", ",\n"));
            builder.grouped_sequence(vec![builder.flat_text("["), inner, builder.breaker("]", ",\n]")])
        },
    );
}

#[test]
fn conversion_nest() {
    compare_all(
        || BoxDoc::nest(20, BoxDoc::flat_text("lorem ipsum dolor sit amet")),
        |builder| builder.nest(20, builder.flat_text("lorem ipsum dolor sit amet")),
    );
}
