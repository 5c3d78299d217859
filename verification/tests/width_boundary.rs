use groupnest::document::FlatFragment;
use groupnest::layout::{LayoutSettings, LayoutWidthConstraint};
use groupnest::renderer::{LayoutError, RenderError};
use groupnest::{BoxDoc, GroupPolicy};

fn abc_def() -> BoxDoc<()> {
    BoxDoc::grouped_sequence(
        vec![BoxDoc::flat_text("abc"), BoxDoc::breaker(" ", "\n"), BoxDoc::flat_text("def")],
        GroupPolicy::Normal,
    )
}

#[test]
fn exact_fit() {
    let doc = abc_def();
    let settings = LayoutSettings {
        min_width: 0,
        max_width: 7,
        ..Default::default()
    };
    let result = doc.to_plaintext_with(settings).unwrap();
    assert_eq!(result, "abc def");
}

#[test]
fn off_by_one() {
    let doc = abc_def();
    let settings = LayoutSettings {
        min_width: 0,
        max_width: 6,
        ..Default::default()
    };
    let result = doc.to_plaintext_with(settings).unwrap();
    assert_eq!(result, "abc\ndef");
}

#[test]
fn width_zero() {
    let doc = abc_def();
    let settings = LayoutSettings {
        min_width: 0,
        max_width: 0,
        ..Default::default()
    };
    let result = doc.to_plaintext_with(settings).unwrap();
    assert_eq!(result, "abc\ndef");
}

#[test]
fn width_zero_strict() {
    let doc = abc_def();
    let settings = LayoutSettings {
        min_width: 0,
        max_width: 0,
        width_constraint: LayoutWidthConstraint::Strict,
        ..Default::default()
    };
    let result = doc.to_plaintext_with(settings).unwrap_err();
    assert_eq!(
        result,
        RenderError::LayoutError(LayoutError::WidthExceeded { line_num: 1, max_width: 0, line_width: 3 })
    );
}

#[test]
fn nesting_fit() {
    let doc: BoxDoc<()> = BoxDoc::grouped_sequence(
        vec![
            BoxDoc::flat_text("["),
            BoxDoc::nest(2, BoxDoc::sequence(vec![BoxDoc::breaker(" ", "\n"), BoxDoc::flat_text("x")])),
            BoxDoc::breaker(" ", "\n"),
            BoxDoc::flat_text("]"),
        ],
        GroupPolicy::Normal,
    );
    let width_of = |max_width| LayoutSettings {
        min_width: 0,
        max_width,
        ..Default::default()
    };

    let result = doc.to_plaintext_with(width_of(5)).unwrap();
    assert_eq!(result, "[ x ]");

    let result = doc.to_plaintext_with(width_of(4)).unwrap();
    assert_eq!(result, "[\n  x\n]");
}

#[test]
fn long_atom_never_splits() {
    let doc: BoxDoc<()> = BoxDoc::flat_text("abcdefghijklmnop");
    let settings = LayoutSettings {
        min_width: 0,
        max_width: 5,
        ..Default::default()
    };

    let result = doc.to_plaintext_with(settings).unwrap();
    assert_eq!(result, "abcdefghijklmnop");
}

#[test]
fn unicode_width() {
    let width_of = |payload: &'static str| FlatFragment::new(payload.into()).unwrap().unicode_width();
    assert_eq!(width_of("Hello World!"), 12);
    assert_eq!(width_of("αβγ"), 3);
    assert_eq!(width_of("你好世界"), 8);
}
