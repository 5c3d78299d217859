use groupnest::document::{Document, Sequence};
use groupnest::layout::LayoutSettings;
use groupnest::{BoxDoc, GroupPolicy};

fn width_of(max_width: usize) -> LayoutSettings {
    LayoutSettings {
        min_width: 0,
        max_width,
        ..Default::default()
    }
}

#[test]
fn empty_group() {
    let doc: BoxDoc<()> = BoxDoc(Box::new(Document::Group(
        GroupPolicy::Normal,
        BoxDoc(Box::new(Document::Sequence(Sequence::new(Vec::new())))),
    )));

    let result = doc.to_plaintext().unwrap();
    assert!(result.is_empty())
}

#[test]
fn group_nil_group() {
    let doc: BoxDoc<()> = BoxDoc(Box::new(Document::Group(GroupPolicy::Normal, BoxDoc::nil())));

    let result = doc.to_plaintext().unwrap();
    assert!(result.is_empty())
}

#[test]
fn nested_groups() {
    let doc: BoxDoc<()> = BoxDoc::group(
        BoxDoc::grouped_sequence(
            vec![BoxDoc::flat_text("a"), BoxDoc::breaker(" ", "\n"), BoxDoc::flat_text("b")],
            GroupPolicy::Normal,
        ),
        GroupPolicy::Normal,
    );

    let result_flat = doc.to_plaintext_with(width_of(3)).unwrap();
    assert_eq!(result_flat, "a b");

    let result_broken = doc.to_plaintext_with(width_of(2)).unwrap();
    assert_eq!(result_broken, "a\nb");
}

#[test]
fn force_break() {
    let doc: BoxDoc<()> = BoxDoc::grouped_sequence(
        vec![BoxDoc::flat_text("abc"), BoxDoc::breaker(" ", "\n"), BoxDoc::flat_text("def")],
        GroupPolicy::ForceBreak,
    );

    let result = doc.to_plaintext().unwrap();
    assert_eq!(result, "abc\ndef");
}

#[test]
fn flat_if_possible() {
    let doc: BoxDoc<()> = BoxDoc::grouped_sequence(
        vec![BoxDoc::flat_text("abc"), BoxDoc::breaker(" ", "\n"), BoxDoc::flat_text("def")],
        GroupPolicy::FlatIfPossible,
    );

    let result = doc.to_plaintext_with(width_of(3)).unwrap();
    assert_eq!(result, "abc def");
}

#[test]
fn flat_against_hardline() {
    let doc: BoxDoc<()> = BoxDoc::grouped_sequence(
        vec![BoxDoc::flat_text("abc"), BoxDoc::hard_linebreak(), BoxDoc::flat_text("def")],
        GroupPolicy::FlatIfPossible,
    );

    let result = doc.to_plaintext_with(width_of(100)).unwrap();
    assert_eq!(result, "abc\ndef");
}

#[test]
fn flat_overrides_inner_normal() {
    let doc: BoxDoc<()> = BoxDoc::grouped_sequence(
        vec![
            BoxDoc::flat_text("abc"),
            BoxDoc::group(BoxDoc::breaker(" ", "\n"), GroupPolicy::Normal),
            BoxDoc::flat_text("def"),
        ],
        GroupPolicy::FlatIfPossible,
    );

    let result = doc.to_plaintext_with(width_of(3)).unwrap();
    assert_eq!(result, "abc def");
}

#[test]
fn flat_against_unobservable_group() {
    let doc: BoxDoc<()> = BoxDoc::grouped_sequence(
        vec![
            BoxDoc::flat_text("abc"),
            BoxDoc::group(BoxDoc::flat_text(" "), GroupPolicy::ForceBreak),
            BoxDoc::flat_text("def"),
        ],
        GroupPolicy::FlatIfPossible,
    );

    let result = doc.to_plaintext_with(width_of(3)).unwrap();
    assert_eq!(result, "abc def");
}

#[test]
fn flat_against_normal_breaker_in_double_groups() {
    let doc: BoxDoc<()> = BoxDoc::grouped_sequence(
        vec![
            BoxDoc::flat_text("abc"),
            BoxDoc::group(
                BoxDoc::group(BoxDoc::breaker(" ", "\n"), GroupPolicy::Normal),
                GroupPolicy::ForceBreak,
            ),
            BoxDoc::flat_text("def"),
            BoxDoc::breaker(".", "\n"),
        ],
        GroupPolicy::FlatIfPossible,
    );

    let result = doc.to_plaintext_with(width_of(3)).unwrap();
    assert_eq!(result, "abc def.");
}

#[test]
fn flat_against_forced_breaker_in_double_groups() {
    let doc: BoxDoc<()> = BoxDoc::grouped_sequence(
        vec![
            BoxDoc::flat_text("abc"),
            BoxDoc::group(
                BoxDoc::group(BoxDoc::breaker(" ", "\n"), GroupPolicy::ForceBreak),
                GroupPolicy::Normal,
            ),
            BoxDoc::flat_text("def"),
            BoxDoc::breaker(".", "\n"),
        ],
        GroupPolicy::FlatIfPossible,
    );

    let result = doc.to_plaintext_with(width_of(3)).unwrap();
    assert_eq!(result, "abc\ndef\n");
}
