use groupnest::renderer::RenderEvent;
use groupnest::BoxDoc;

#[test]
fn annotation_nil() {
    let doc: BoxDoc<_> = BoxDoc::annotation(String::from("bold!"), BoxDoc::nil());
    let events = doc.as_layout().collect_events();

    assert!(!events.is_empty());
    let bold = String::from("bold!");
    assert_eq!(events, vec![RenderEvent::PushAnnotation(&bold), RenderEvent::PopAnnotation]);
}
