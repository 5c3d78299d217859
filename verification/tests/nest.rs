use groupnest::document::{Document, FlatFragment};
use groupnest::layout::{LayoutMode, LayoutSettings, LayoutWidthConstraint};
use groupnest::BoxDoc;

const SETTINGS: LayoutSettings = LayoutSettings {
    initial_mode: LayoutMode::Broken,
    min_width: 20,
    max_width: 100,
    width_constraint: LayoutWidthConstraint::Relaxed,
};

#[test]
fn strip_trailing() {
    let doc: BoxDoc<()> = BoxDoc::sequence(vec![BoxDoc::from_text("a\n"), BoxDoc::nest(4, BoxDoc::nil())]);

    let result = doc.to_plaintext_with(SETTINGS).unwrap();
    assert_eq!(result, "a\n");
    let lines = result.split('\n').collect::<Vec<_>>();
    assert_eq!(lines[1].len(), 0);
}

#[test]
fn strip_trailing_empty_string() {
    let doc: BoxDoc<()> = BoxDoc::sequence(vec![
        BoxDoc::from_text("a\n"),
        BoxDoc::nest(4, BoxDoc(Box::new(Document::Text(FlatFragment::new("".into()).unwrap())))),
    ]);

    let result = doc.to_plaintext_with(SETTINGS).unwrap();
    assert_eq!(result, "a\n");
    let lines = result.split('\n').collect::<Vec<_>>();
    assert_eq!(lines[1].len(), 0);
}

#[test]
fn premature_enter() {
    let doc: BoxDoc<()> = BoxDoc::sequence(vec![BoxDoc::from_text("a\n"), BoxDoc::nest(4, BoxDoc::flat_text("b"))]);

    let result = doc.to_plaintext_with(SETTINGS).unwrap();
    assert_eq!(result, "a\n    b");
    let lines = result.split('\n').collect::<Vec<_>>();
    assert_eq!(lines[1].len(), 5);
}

#[test]
fn premature_exit() {
    let doc: BoxDoc<()> = BoxDoc::sequence(vec![BoxDoc::nest(4, BoxDoc::from_text("b\n")), BoxDoc::flat_text("c")]);

    let result = doc.to_plaintext_with(SETTINGS).unwrap();
    assert_eq!(result, "    b\nc");
    let lines = result.split('\n').collect::<Vec<_>>();
    assert_eq!(lines[1].len(), 1);
}

#[test]
fn nest_logical_newline() {
    let doc: BoxDoc<()> = BoxDoc::sequence(vec![
        BoxDoc::from_text("outer {\n"),
        BoxDoc::nest(4, BoxDoc::from_text("inner\n")),
        BoxDoc::flat_text("}"),
    ]);

    let result = doc.to_plaintext_with(SETTINGS).unwrap();
    assert_eq!(result, "outer {\n    inner\n}");
}

#[test]
fn nest_around_multiline_break() {
    let doc: BoxDoc<()> = BoxDoc::nest(
        2,
        BoxDoc::sequence(vec![
            BoxDoc::flat_text("a "),
            BoxDoc::breaker("", "x\ny"),
            BoxDoc::flat_text(" b"),
            BoxDoc::breaker("", "\nif you\nchange your mind"),
        ]),
    );

    let result = doc.to_plaintext_with(SETTINGS).unwrap();
    let expected = "  a x\n  y b\n  if you\n  change your mind";
    assert_eq!(&expected, &result);
}

#[test]
fn nest_in_current_line() {
    let doc: BoxDoc<()> = BoxDoc::sequence(vec![BoxDoc::flat_text("a"), BoxDoc::nest(2, BoxDoc::from_text("b\nc"))]);

    let result = doc.to_plaintext_with(SETTINGS).unwrap();
    assert_eq!(result, "ab\n  c");
}

#[test]
fn nest_with_breaker_spaces() {
    let doc: BoxDoc<()> = BoxDoc::nest(2, BoxDoc::breaker("", "a\n  b\n  c"));

    let result = doc.to_plaintext_with(SETTINGS).unwrap();
    let expected = "  a\n    b\n    c";
    assert_eq!(&expected, &result);
}
