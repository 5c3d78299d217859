use groupnest::{Arena, GroupPolicy, RefDocBuilder};

#[test]
fn logical_newline_logical_newline() {
    let arena = Arena::new();
    let builder: RefDocBuilder<'_, ()> = RefDocBuilder::new(&arena);
    let doc = builder.group_with(
        GroupPolicy::ForceBreak,
        builder.sequence(vec![
            builder.from_text("outer {\n"),
            builder.nest(4, builder.from_text("inner\n\n")),
            builder.flat_text("}"),
        ]),
    );

    let result = doc.to_plaintext().unwrap();
    assert_eq!(result, "outer {\n    inner\n\n}");

    let lines = result.lines().collect::<Vec<_>>();
    assert_eq!(lines[2].len(), 0)
}
