//! Terminal colors as annotations: `ColorPatch` changes a color
//! specification cumulatively, and `TermcolorState` decides, event by event,
//! what a renderer to a color terminal writes and which colors it sets.

use termcolor::Color;

use vstd::prelude::*;

use crate::renderer::{event_text, PlaintextRenderer, RenderError, RenderEvent};

verus! {

/// `termcolor::Color`, declared so that patches and specifications can carry
/// colors through; a color is opaque to the proofs.
#[verifier::external_type_specification]
#[verifier::external_body]
pub struct ExColor(Color);

/// A color specification: the fields of `termcolor::ColorSpec`, which a
/// terminal writer is set to.
#[derive(Debug, Clone, Copy, PartialEq, Eq)]
pub struct ColorSpec {
    pub fg_color: Option<Color>,
    pub bg_color: Option<Color>,
    pub bold: bool,
    pub intense: bool,
    pub underline: bool,
    pub dimmed: bool,
    pub italic: bool,
    pub reset: bool,
    pub strikethrough: bool,
}

/// The specification with no colors or styles, which resets the terminal
/// before it is applied.
pub open spec fn default_colorspec() -> ColorSpec {
    ColorSpec {
        fg_color: None,
        bg_color: None,
        bold: false,
        intense: false,
        underline: false,
        dimmed: false,
        italic: false,
        reset: true,
        strikethrough: false,
    }
}

impl Default for ColorSpec {
    /// The specification with no colors or styles.
    fn default() -> (r: Self)
        ensures
            r == default_colorspec(),
    {
        ColorSpec {
            fg_color: None,
            bg_color: None,
            bold: false,
            intense: false,
            underline: false,
            dimmed: false,
            italic: false,
            reset: true,
            strikethrough: false,
        }
    }
}

/// A patch to a `ColorSpec`, with cumulative semantics: each field left
/// `None` keeps the specification's field, and `Some(value)` overrides it
/// with `value`. For the colors, `Some(None)` clears the color.
#[derive(Debug, Clone, PartialEq, Eq)]
pub struct ColorPatch {
    /// Foreground color.
    pub fg_color: Option<Option<Color>>,
    /// Background color.
    pub bg_color: Option<Option<Color>>,
    pub bold: Option<bool>,
    pub italic: Option<bool>,
    pub underline: Option<bool>,
    pub strikethrough: Option<bool>,
    pub intense: Option<bool>,
    pub dimmed: Option<bool>,
    pub reset: Option<bool>,
}

/// The patch that changes nothing.
pub open spec fn identity_patch() -> ColorPatch {
    ColorPatch {
        fg_color: None,
        bg_color: None,
        bold: None,
        italic: None,
        underline: None,
        strikethrough: None,
        intense: None,
        dimmed: None,
        reset: None,
    }
}

/// The value of a field after a patch: the patch's value where it has one,
/// else the field's own.
pub open spec fn overridden<T>(patch: Option<T>, value: T) -> T {
    match patch {
        Some(v) => v,
        None => value,
    }
}

/// The specification with the patch applied, field by field.
pub open spec fn patched(p: ColorPatch, s: ColorSpec) -> ColorSpec {
    ColorSpec {
        fg_color: overridden(p.fg_color, s.fg_color),
        bg_color: overridden(p.bg_color, s.bg_color),
        bold: overridden(p.bold, s.bold),
        intense: overridden(p.intense, s.intense),
        underline: overridden(p.underline, s.underline),
        dimmed: overridden(p.dimmed, s.dimmed),
        italic: overridden(p.italic, s.italic),
        reset: overridden(p.reset, s.reset),
        strikethrough: overridden(p.strikethrough, s.strikethrough),
    }
}

/// The patch's value where it has one, else the field's own.
fn override_with<T>(patch: Option<T>, value: T) -> (r: T)
    ensures
        r == overridden(patch, value),
{
    match patch {
        Some(v) => v,
        None => value,
    }
}

impl Default for ColorPatch {
    /// The patch that changes nothing.
    fn default() -> (r: Self)
        ensures
            r == identity_patch(),
    {
        ColorPatch {
            fg_color: None,
            bg_color: None,
            bold: None,
            italic: None,
            underline: None,
            strikethrough: None,
            intense: None,
            dimmed: None,
            reset: None,
        }
    }
}

impl ColorPatch {
    /// The patch that changes nothing.
    pub fn new() -> (r: Self)
        ensures
            r == identity_patch(),
    {
        Self::default()
    }

    /// The patch that clears every field of a specification to its default.
    pub fn clear_all() -> (r: Self)
        ensures
            r == (ColorPatch {
                fg_color: Some(None),
                bg_color: Some(None),
                bold: Some(false),
                italic: Some(false),
                underline: Some(false),
                strikethrough: Some(false),
                intense: Some(false),
                dimmed: Some(false),
                reset: Some(true),
            }),
    {
        ColorPatch {
            fg_color: Some(None),
            bg_color: Some(None),
            bold: Some(false),
            italic: Some(false),
            underline: Some(false),
            strikethrough: Some(false),
            intense: Some(false),
            dimmed: Some(false),
            reset: Some(true),
        }
    }

    /// Applies the patch to a specification.
    pub fn apply_to(self, to_modify: ColorSpec) -> (r: ColorSpec)
        ensures
            r == patched(self, to_modify),
    {
        ColorSpec {
            fg_color: override_with(self.fg_color, to_modify.fg_color),
            bg_color: override_with(self.bg_color, to_modify.bg_color),
            bold: override_with(self.bold, to_modify.bold),
            intense: override_with(self.intense, to_modify.intense),
            underline: override_with(self.underline, to_modify.underline),
            dimmed: override_with(self.dimmed, to_modify.dimmed),
            italic: override_with(self.italic, to_modify.italic),
            reset: override_with(self.reset, to_modify.reset),
            strikethrough: override_with(self.strikethrough, to_modify.strikethrough),
        }
    }
}

/// Applying a patch sets each field of the specification from the patch's
/// field of the same name: the patch's value where it has one, the
/// specification's own where it has none. So a patch that sets one field
/// changes that field alone.
pub proof fn lemma_patch_fieldwise(p: ColorPatch, s: ColorSpec)
    ensures
        ({
            let r = patched(p, s);
            &&& (p.fg_color matches Some(v) ==> r.fg_color == v) && (p.fg_color is None ==> r.fg_color == s.fg_color)
            &&& (p.bg_color matches Some(v) ==> r.bg_color == v) && (p.bg_color is None ==> r.bg_color == s.bg_color)
            &&& (p.bold matches Some(v) ==> r.bold == v) && (p.bold is None ==> r.bold == s.bold)
            &&& (p.intense matches Some(v) ==> r.intense == v) && (p.intense is None ==> r.intense == s.intense)
            &&& (p.underline matches Some(v) ==> r.underline == v) && (p.underline is None ==> r.underline == s.underline)
            &&& (p.dimmed matches Some(v) ==> r.dimmed == v) && (p.dimmed is None ==> r.dimmed == s.dimmed)
            &&& (p.italic matches Some(v) ==> r.italic == v) && (p.italic is None ==> r.italic == s.italic)
            &&& (p.reset matches Some(v) ==> r.reset == v) && (p.reset is None ==> r.reset == s.reset)
            &&& (p.strikethrough matches Some(v) ==> r.strikethrough == v) && (p.strikethrough is None
                ==> r.strikethrough == s.strikethrough)
        }),
{
}

/// Applying two patches one after the other: each field comes from the
/// later patch where it sets it, else from the earlier one, else from the
/// specification; and applying the same patch twice is applying it once.
pub proof fn lemma_patch_twice(p: ColorPatch, q: ColorPatch, s: ColorSpec)
    ensures
        patched(p, patched(p, s)) == patched(p, s),
        patched(q, patched(p, s)).italic == (if q.italic is Some { q.italic->0 } else if p.italic is Some {
            p.italic->0
        } else {
            s.italic
        }),
        patched(q, patched(p, s)).underline == (if q.underline is Some { q.underline->0 } else if p.underline is Some {
            p.underline->0
        } else {
            s.underline
        }),
{
}

/// The identity patch leaves every specification as it is.
pub proof fn lemma_identity_patch(s: ColorSpec)
    ensures
        patched(identity_patch(), s) == s,
{
}

/// Clearing all fields gives the default specification, whatever the
/// specification was.
pub proof fn lemma_clear_all_gives_default(s: ColorSpec)
    ensures
        patched(
            ColorPatch {
                fg_color: Some(None),
                bg_color: Some(None),
                bold: Some(false),
                italic: Some(false),
                underline: Some(false),
                strikethrough: Some(false),
                intense: Some(false),
                dimmed: Some(false),
                reset: Some(true),
            },
            s,
        ) == default_colorspec(),
{
}

/// What a color terminal renderer does for an event.
#[derive(Debug, Clone, PartialEq, Eq)]
pub enum TermcolorAction {
    /// Write the text.
    Write(String),
    /// Set the terminal to the specification.
    SetColor(ColorSpec),
    /// Nothing to write.
    Nothing,
}

/// The decisions of a renderer to a color terminal: the stack of color
/// specifications in force, the enclosing one last.
pub struct TermcolorState {
    colorstack: Vec<ColorSpec>,
}

impl TermcolorState {
    /// The stack of specifications, the innermost last.
    pub closed spec fn stack(self) -> Seq<ColorSpec> {
        self.colorstack@
    }

    /// A state whose terminal starts with the default specification.
    pub fn new() -> (r: Self)
        ensures
            r.stack() == seq![default_colorspec()],
    {
        let mut colorstack = Vec::new();
        colorstack.push(ColorSpec::default());
        TermcolorState { colorstack }
    }

    /// A state whose terminal starts with the given specification.
    pub fn with_colorspec(spec: ColorSpec) -> (r: Self)
        ensures
            r.stack() == seq![spec],
    {
        let mut colorstack = Vec::new();
        colorstack.push(spec);
        TermcolorState { colorstack }
    }

    /// The specification in force: the innermost one, or the default on an
    /// empty stack.
    pub open spec fn current(self) -> ColorSpec {
        if self.stack().len() == 0 {
            default_colorspec()
        } else {
            self.stack().last()
        }
    }

    /// Receives an event. Text, newlines and padding are written as the
    /// plaintext renderer writes them; an annotation applies its patch to
    /// the specification in force, sets the terminal to the result and
    /// pushes it; the end of an annotation pops the innermost specification
    /// and sets no color; an error is returned.
    pub fn receive(&mut self, event: RenderEvent<'_, ColorPatch>) -> (r: Result<TermcolorAction, RenderError>)
        ensures
            match event {
                RenderEvent::PushAnnotation(patch) => {
                    let spec = patched(patch, old(self).current());
                    &&& r == Ok::<TermcolorAction, RenderError>(TermcolorAction::SetColor(spec))
                    &&& final(self).stack() == old(self).stack().push(spec)
                },
                RenderEvent::PopAnnotation => {
                    &&& r == Ok::<TermcolorAction, RenderError>(TermcolorAction::Nothing)
                    &&& final(self).stack() == (if old(self).stack().len() == 0 {
                        old(self).stack()
                    } else {
                        old(self).stack().drop_last()
                    })
                },
                RenderEvent::Error(err) => {
                    &&& r == Err::<TermcolorAction, RenderError>(RenderError::LayoutError(err))
                    &&& final(self).stack() == old(self).stack()
                },
                _ => {
                    &&& r matches Ok(TermcolorAction::Write(s)) && s@ == event_text(event.model())
                    &&& final(self).stack() == old(self).stack()
                },
            },
    {
        match event {
            RenderEvent::PushAnnotation(patch) => {
                let n = self.colorstack.len();
                let enclosing = if n == 0 {
                    ColorSpec::default()
                } else {
                    self.colorstack[n - 1]
                };
                let new_spec = patch.apply_to(enclosing);
                self.colorstack.push(new_spec);
                Ok(TermcolorAction::SetColor(new_spec))
            },
            RenderEvent::PopAnnotation => {
                let _ = self.colorstack.pop();
                Ok(TermcolorAction::Nothing)
            },
            RenderEvent::Error(e) => Err(RenderError::LayoutError(e)),
            other => {
                let mut text = PlaintextRenderer::new(String::new());
                let _ = text.receive(other);
                proof {
                    assert(Seq::<char>::empty().add(event_text(other.model())) =~= event_text(other.model()));
                }
                Ok(TermcolorAction::Write(text.inner))
            },
        }
    }
}

} // verus!
