use groupnest::document::{Document, Sequence};
use groupnest::{BoxDoc, GroupPolicy};

#[test]
fn nil_sequence() {
    let doc: BoxDoc<()> = BoxDoc(Box::new(Document::Sequence(Sequence::new(vec![BoxDoc::nil()]))));

    let result = doc.to_plaintext().unwrap();
    assert!(result.is_empty())
}

#[test]
fn nil_sequence_multiple() {
    let doc: BoxDoc<()> = BoxDoc(Box::new(Document::Sequence(Sequence::new(vec![BoxDoc::nil(); 5]))));

    let result = doc.to_plaintext().unwrap();
    assert!(result.is_empty())
}

#[test]
fn nil_nil_group() {
    let doc: BoxDoc<()> = BoxDoc(Box::new(Document::Group(GroupPolicy::Normal, BoxDoc::nil())));

    let result = doc.to_plaintext().unwrap();
    assert!(result.is_empty())
}

#[test]
fn nil_nest() {
    let doc: BoxDoc<()> = BoxDoc(Box::new(Document::Nest(100, BoxDoc::nil())));

    let result = doc.to_plaintext().unwrap();
    assert!(result.is_empty())
}

#[test]
fn nil_leading() {
    const TEXT: &str = "Lorem ipsum dolor sit amet";
    let doc: BoxDoc<()> = BoxDoc(Box::new(Document::Sequence(Sequence::new(vec![
        BoxDoc::nil(),
        BoxDoc::flat_text(TEXT),
    ]))));

    let result = doc.to_plaintext().unwrap();
    assert_eq!(result, "Lorem ipsum dolor sit amet");
    assert_eq!(result.len(), TEXT.len());
}

#[test]
fn nil_trailing() {
    const TEXT: &str = "Lorem ipsum dolor sit amet";
    let doc: BoxDoc<()> = BoxDoc(Box::new(Document::Sequence(Sequence::new(vec![
        BoxDoc::flat_text(TEXT),
        BoxDoc::nil(),
    ]))));

    let result = doc.to_plaintext().unwrap();
    assert_eq!(result, "Lorem ipsum dolor sit amet");
    assert_eq!(result.len(), TEXT.len());
}
