use groupnest::layout::{LayoutMode, LayoutSettings, LayoutWidthConstraint};
use groupnest::renderer::RenderError;
use groupnest::{Arena, DocBuilder, GroupPolicy, RefDoc};

enum SExp {
    Atom(u32),
    List(Vec<SExp>),
}

impl SExp {
    fn to_doc<'a>(&self, builder: &DocBuilder<'a, ()>) -> RefDoc<'a, ()> {
        match self {
            SExp::Atom(num) => builder.flat_text(&format!("{num:?}")),
            SExp::List(children) => {
                let children_docs = children.iter().map(|child| child.to_doc(builder)).collect::<Vec<_>>();
                builder.grouped_sequence_with(
                    GroupPolicy::Normal,
                    vec![
                        builder.flat_text("("),
                        builder.nest(1, builder.sequence_intersperse_with(children_docs, builder.breaker(" ", "\n"))),
                        builder.flat_text(")"),
                    ],
                )
            }
        }
    }

    fn to_string(&self) -> Result<String, RenderError> {
        let arena = Arena::new();
        let doc = self.to_doc(&DocBuilder::new(&arena));
        doc.to_plaintext()
    }

    fn to_string_with(&self, settings: LayoutSettings) -> Result<String, RenderError> {
        let arena = Arena::new();
        let doc = self.to_doc(&DocBuilder::new(&arena));
        doc.to_plaintext_with(settings)
    }
}

fn example() -> SExp {
    SExp::List(vec![
        SExp::List(vec![SExp::Atom(1)]),
        SExp::List(vec![SExp::Atom(2), SExp::Atom(3)]),
        SExp::List(vec![SExp::Atom(4), SExp::Atom(5), SExp::Atom(6)]),
    ])
}

#[test]
fn generate_doc() {
    let result = example().to_string().unwrap();
    assert_eq!(result, "((1) (2 3) (4 5 6))");
}

#[test]
fn cramped() {
    const SETTINGS: LayoutSettings = LayoutSettings {
        min_width: 0,
        max_width: 10,
        width_constraint: LayoutWidthConstraint::Relaxed,
        initial_mode: LayoutMode::Flat,
    };
    let result = example().to_string_with(SETTINGS).unwrap();
    assert_eq!(result, "((1)\n (2 3)\n (4 5 6))");
}
