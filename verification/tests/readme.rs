use groupnest::layout::LayoutSettings;
use groupnest::{BoxDoc, GroupPolicy};

pub enum SExp {
    Atom(u32),
    List(Vec<SExp>),
}

impl SExp {
    pub fn to_doc(&self) -> BoxDoc<()> {
        match self {
            SExp::Atom(num) => BoxDoc::flat_text(&num.to_string()),
            SExp::List(children) => {
                let children_docs = children.iter().map(|child| child.to_doc()).collect::<Vec<_>>();
                BoxDoc::grouped_sequence_with(
                    GroupPolicy::Normal,
                    vec![
                        BoxDoc::flat_text("("),
                        BoxDoc::nest(1, BoxDoc::sequence_intersperse_with(children_docs, BoxDoc::breaker(" ", "\n"))),
                        BoxDoc::flat_text(")"),
                    ],
                )
            }
        }
    }
}

#[test]
fn readme_quick_start() {
    let example = SExp::List(vec![
        SExp::List(vec![SExp::Atom(1)]),
        SExp::List(vec![SExp::Atom(2), SExp::Atom(3)]),
        SExp::List(vec![SExp::Atom(4), SExp::Atom(5), SExp::Atom(6)]),
    ]);

    let out: String = example.to_doc().to_plaintext().unwrap();
    assert_eq!(out, "((1) (2 3) (4 5 6))");

    let small_window_settings = LayoutSettings {
        min_width: 0,
        max_width: 10,
        ..Default::default()
    };
    let cramped: String = example.to_doc().to_plaintext_with(small_window_settings).unwrap();
    assert_eq!(cramped, "((1)\n (2 3)\n (4 5 6))");
}
