use groupnest::document::{Break, BreakNodeInvalid, ContainsTab, FragmentError};
use groupnest::layout::{LayoutMode, LayoutSettings, LayoutWidthConstraint};
use groupnest::BoxDoc;

const BREAK_FIRST: LayoutSettings = LayoutSettings {
    initial_mode: LayoutMode::Broken,
    min_width: 20,
    max_width: 100,
    width_constraint: LayoutWidthConstraint::Relaxed,
};

#[test]
fn flat_payload_invariant() {
    assert_eq!(
        Break::new("CRLF\r\n".into(), "\n".into()).unwrap_err(),
        BreakNodeInvalid::FragmentError(FragmentError::ContainsLinebreak(
            "\r\n".to_string(),
            4,
            "CRLF\r\n".to_string()
        ))
    );
    assert_eq!(
        Break::new("tab!\t".into(), "\n".into()).unwrap_err(),
        BreakNodeInvalid::FragmentError(FragmentError::ContainsTab(ContainsTab::ContainsTab(
            4,
            "tab!\t".to_string()
        )))
    );
}

#[test]
fn breaker_prefix() {
    let doc: BoxDoc<()> = BoxDoc::breaker("", ";\n");
    let result = doc.to_plaintext_with(BREAK_FIRST).unwrap();
    assert_eq!(result, ";\n");
}

#[test]
fn breaker_suffix() {
    let doc: BoxDoc<()> = BoxDoc::breaker("", "\n;");
    let result = doc.to_plaintext_with(BREAK_FIRST).unwrap();
    assert_eq!(result, "\n;");
}

#[test]
fn break_payload_invariant() {
    assert_eq!(Break::new("".into(), "no newline!".into()).unwrap_err(), BreakNodeInvalid::BrokenPayloadHasNoNewline);
    assert_eq!(
        Break::new("".into(), "tab!\n\t".into()).unwrap_err(),
        BreakNodeInvalid::FragmentError(FragmentError::ContainsTab(ContainsTab::ContainsTab(
            5,
            "tab!\n\t".to_string()
        )))
    );
}

#[test]
fn breaker_infix_indentation() {
    let doc: BoxDoc<()> = BoxDoc::sequence(vec![
        BoxDoc::flat_text("{"),
        BoxDoc::nest(2, BoxDoc::breaker("unseen", "\n// indented!\n")),
        BoxDoc::flat_text("}"),
    ]);

    let result = doc.to_plaintext_with(BREAK_FIRST).unwrap();
    assert_eq!(result, "{\n  // indented!\n}");
}
