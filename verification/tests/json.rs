use groupnest::layout::{LayoutMode, LayoutSettings, LayoutWidthConstraint};
use groupnest::{ArcDoc, ArcDocBuilder};

struct Formatter {
    nest_amount: usize,
    has_trailing_comma: bool,
}

enum Json {
    Null,
    Boolean(bool),
    Number(f64),
    String(String),
    Array(Vec<Json>),
    Object(Vec<(String, Json)>),
}

impl Formatter {
    const STRICT: Self = Formatter {
        nest_amount: 2,
        has_trailing_comma: false,
    };
    const JSON5: Self = Formatter {
        nest_amount: 2,
        has_trailing_comma: true,
    };

    fn to_doc(&self, json: &Json, builder: &ArcDocBuilder<()>) -> ArcDoc<()> {
        match json {
            Json::Null => builder.flat_text("null"),
            Json::Boolean(value) => builder.flat_text(if *value { "true" } else { "false" }),
            Json::Number(value) => builder.flat_text(&value.to_string()),
            Json::String(value) => builder.flat_text(&format!("{value:?}")),
            Json::Array(jsons) => {
                let children_docs = jsons.iter().map(|child| self.to_doc(child, builder)).collect::<Vec<_>>();
                builder.grouped_sequence(vec![
                    builder.breaker("[", "[\n"),
                    builder.nest(
                        self.nest_amount,
                        builder.sequence_intersperse_with(children_docs, builder.breaker(", ", ",\n")),
                    ),
                    builder.breaker("]", if self.has_trailing_comma { ",\n]" } else { "\n}" }),
                ])
            }
            Json::Object(map) => {
                let children_entries = map
                    .iter()
                    .map(|(key, value)| {
                        builder.sequence(vec![
                            builder.flat_text(&format!("{key:?}")),
                            builder.flat_text(": "),
                            self.to_doc(value, builder),
                        ])
                    })
                    .collect::<Vec<_>>();
                builder.grouped_sequence(vec![
                    builder.breaker("{", "{\n"),
                    builder.nest(
                        self.nest_amount,
                        builder.sequence_intersperse_with(children_entries, builder.breaker(", ", ",\n")),
                    ),
                    builder.breaker("}", if self.has_trailing_comma { ",\n}" } else { "\n}" }),
                ])
            }
        }
    }
}

const NARROW: LayoutSettings = LayoutSettings {
    initial_mode: LayoutMode::Broken,
    min_width: 0,
    max_width: 10,
    width_constraint: LayoutWidthConstraint::Relaxed,
};

fn entry(key: &str, value: Json) -> (String, Json) {
    (String::from(key), value)
}

#[test]
fn json_null() {
    let doc = Formatter::STRICT.to_doc(&Json::Null, &ArcDocBuilder::new());
    let result = doc.to_plaintext().unwrap();
    assert_eq!(result, "null");
}

#[test]
fn json_true() {
    let doc = Formatter::STRICT.to_doc(&Json::Boolean(true), &ArcDocBuilder::new());
    let result = doc.to_plaintext().unwrap();
    assert_eq!(result, "true");
}

#[test]
fn json_false() {
    let doc = Formatter::STRICT.to_doc(&Json::Boolean(false), &ArcDocBuilder::new());
    let result = doc.to_plaintext().unwrap();
    assert_eq!(result, "false");
}

#[test]
fn json_string() {
    let doc = Formatter::STRICT.to_doc(&Json::String(String::from("Lorem ipsum\ndolor sit amet")), &ArcDocBuilder::new());
    let result = doc.to_plaintext().unwrap();
    assert_eq!(result, r#""Lorem ipsum\ndolor sit amet""#);
}

#[test]
fn json_array() {
    let doc = Formatter::STRICT.to_doc(
        &Json::Array((0..5).map(|i| Json::Number(i as f64)).collect()),
        &ArcDocBuilder::new(),
    );

    let inline = doc.to_plaintext().unwrap();
    assert_eq!(inline, "[0, 1, 2, 3, 4]");

    let multiline = doc.to_plaintext_with(NARROW).unwrap();
    assert_eq!(multiline, "[\n  0,\n  1,\n  2,\n  3,\n  4\n}");
}

#[test]
fn json_object() {
    let doc = Formatter::STRICT.to_doc(
        &Json::Object(vec![
            entry("name", Json::String(String::from("John"))),
            entry("age", Json::Number(30.0)),
            entry("city", Json::String(String::from("New York"))),
        ]),
        &ArcDocBuilder::new(),
    );

    let inline = doc.to_plaintext().unwrap();
    assert_eq!(inline, r#"{"name": "John", "age": 30, "city": "New York"}"#);

    let multiline = doc.to_plaintext_with(NARROW).unwrap();
    assert_eq!(multiline, "{\n  \"name\": \"John\",\n  \"age\": 30,\n  \"city\": \"New York\"\n}");
}

#[test]
fn json_mix() {
    let item = |value: &str, onclick: &str| {
        Json::Object(vec![
            entry("value", Json::String(String::from(value))),
            entry("onclick", Json::String(String::from(onclick))),
        ])
    };
    let json = Json::Object(vec![entry(
        "menu",
        Json::Object(vec![
            entry("id", Json::String(String::from("file"))),
            entry("value", Json::String(String::from("File"))),
            entry(
                "popup",
                Json::Object(vec![entry(
                    "menuitem",
                    Json::Array(vec![
                        item("New", "CreateNewDoc()"),
                        item("Open", "OpenDoc()"),
                        item("Close", "CloseDoc()"),
                    ]),
                )]),
            ),
        ]),
    )]);
    const SETTINGS: LayoutSettings = LayoutSettings {
        min_width: 0,
        max_width: 60,
        width_constraint: LayoutWidthConstraint::Relaxed,
        initial_mode: LayoutMode::Flat,
    };

    let strict = Formatter::STRICT.to_doc(&json, &ArcDocBuilder::new());
    let strict_result = strict.to_plaintext_with(SETTINGS).unwrap();
    let expected_strict = [
        "{",
        "  \"menu\": {",
        "    \"id\": \"file\",",
        "    \"value\": \"File\",",
        "    \"popup\": {",
        "      \"menuitem\": [",
        "        {\"value\": \"New\", \"onclick\": \"CreateNewDoc()\"},",
        "        {\"value\": \"Open\", \"onclick\": \"OpenDoc()\"},",
        "        {\"value\": \"Close\", \"onclick\": \"CloseDoc()\"}",
        "      }",
        "    }",
        "  }",
        "}",
    ]
    .join("\n");
    assert_eq!(strict_result, expected_strict);

    let json5 = Formatter::JSON5.to_doc(&json, &ArcDocBuilder::new());
    let json5_result = json5.to_plaintext_with(SETTINGS).unwrap();
    let expected_json5 = [
        "{",
        "  \"menu\": {",
        "    \"id\": \"file\",",
        "    \"value\": \"File\",",
        "    \"popup\": {",
        "      \"menuitem\": [",
        "        {\"value\": \"New\", \"onclick\": \"CreateNewDoc()\"},",
        "        {\"value\": \"Open\", \"onclick\": \"OpenDoc()\"},",
        "        {\"value\": \"Close\", \"onclick\": \"CloseDoc()\"},",
        "      ],",
        "    },",
        "  },",
        "}",
    ]
    .join("\n");
    assert_eq!(json5_result, expected_json5);
}
