use groupnest::renderer::{LayoutError, RenderError, RenderEvent};
use groupnest::{ColorPatch, ColorSpec, PlaintextRenderer, Renderer, TermcolorAction, TermcolorState};
use termcolor::Color;

fn busy_spec() -> ColorSpec {
    ColorSpec {
        fg_color: Some(Color::Red),
        bg_color: Some(Color::Rgb(1, 2, 3)),
        bold: true,
        intense: true,
        underline: true,
        dimmed: true,
        italic: true,
        reset: false,
        strikethrough: true,
    }
}

fn bold() -> ColorPatch {
    ColorPatch {
        bold: Some(true),
        ..Default::default()
    }
}

fn red() -> ColorPatch {
    ColorPatch {
        fg_color: Some(Some(Color::Red)),
        ..Default::default()
    }
}

#[test]
fn clear_all_gives_default_spec() {
    assert_eq!(ColorPatch::clear_all().apply_to(busy_spec()), ColorSpec::default());
    assert_eq!(ColorPatch::clear_all().apply_to(ColorSpec::default()), ColorSpec::default());
}

#[test]
fn identity_patch_keeps_spec() {
    assert_eq!(ColorPatch::new(), ColorPatch::default());
    assert_eq!(ColorPatch::new().apply_to(busy_spec()), busy_spec());
}

#[test]
fn patches_accumulate() {
    let spec = red().apply_to(bold().apply_to(ColorSpec::default()));
    assert_eq!(
        spec,
        ColorSpec {
            fg_color: Some(Color::Red),
            bold: true,
            ..ColorSpec::default()
        }
    );
    let cleared = ColorPatch {
        fg_color: Some(None),
        ..Default::default()
    }
    .apply_to(spec);
    assert_eq!(cleared.fg_color, None);
    assert!(cleared.bold);
}

#[test]
fn termcolor_state_follows_annotations() {
    let mut state = TermcolorState::new();
    let bold_spec = ColorSpec {
        bold: true,
        ..ColorSpec::default()
    };
    assert_eq!(
        state.receive(RenderEvent::PushAnnotation(bold())),
        Ok(TermcolorAction::SetColor(bold_spec))
    );
    assert_eq!(
        state.receive(RenderEvent::PushAnnotation(red())),
        Ok(TermcolorAction::SetColor(ColorSpec {
            fg_color: Some(Color::Red),
            ..bold_spec
        }))
    );
    assert_eq!(
        state.receive(RenderEvent::Text(2, "ab")),
        Ok(TermcolorAction::Write(String::from("ab")))
    );
    assert_eq!(
        state.receive(RenderEvent::Padding(2)),
        Ok(TermcolorAction::Write(String::from("  ")))
    );
    assert_eq!(
        state.receive(RenderEvent::Linebreak),
        Ok(TermcolorAction::Write(String::from("\n")))
    );
    assert_eq!(state.receive(RenderEvent::PopAnnotation), Ok(TermcolorAction::Nothing));
    assert_eq!(
        state.receive(RenderEvent::PushAnnotation(ColorPatch::new())),
        Ok(TermcolorAction::SetColor(bold_spec))
    );
    let error = LayoutError::WidthExceeded { line_num: 3, max_width: 4, line_width: 5 };
    assert_eq!(
        state.receive(RenderEvent::Error(error.clone())),
        Err(RenderError::LayoutError(error))
    );
}

#[test]
fn termcolor_state_starts_from_given_spec() {
    let mut state = TermcolorState::with_colorspec(busy_spec());
    assert_eq!(
        state.receive(RenderEvent::PushAnnotation(ColorPatch {
            reset: Some(true),
            ..Default::default()
        })),
        Ok(TermcolorAction::SetColor(ColorSpec {
            reset: true,
            ..busy_spec()
        }))
    );
}

#[test]
fn consume_stops_at_first_error() {
    let mut renderer = PlaintextRenderer::default();
    let events: Vec<RenderEvent<()>> = vec![
        RenderEvent::Text(1, "a"),
        RenderEvent::Linebreak,
        RenderEvent::Padding(2),
        RenderEvent::Text(1, "b"),
    ];
    assert_eq!(Renderer::<()>::consume(&mut renderer, events), Ok(()));
    assert_eq!(renderer.inner, "a\n  b");

    let mut renderer = PlaintextRenderer::default();
    let error = LayoutError::WidthExceeded { line_num: 1, max_width: 0, line_width: 1 };
    let events: Vec<RenderEvent<()>> = vec![
        RenderEvent::Text(1, "a"),
        RenderEvent::Error(error.clone()),
        RenderEvent::Text(1, "b"),
    ];
    assert_eq!(
        Renderer::<()>::consume(&mut renderer, events),
        Err(RenderError::LayoutError(error))
    );
    assert_eq!(renderer.inner, "a");
}
