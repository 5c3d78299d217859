//! A Wadler-style pretty printer whose document model, layout engine and
//! plaintext rendering are specified and verified.

pub mod lines;
pub mod document;
pub mod handle;
pub mod renderer;
pub mod layout;
pub mod properties;
pub mod rebuild;
pub mod termcolor_renderer;

pub use crate::document::GroupPolicy;
pub use crate::handle::arcdoc::{ArcDoc, ArcDocBuilder};
pub use crate::handle::boxdoc::{BoxDoc, OwnedDoc};
pub use crate::handle::refdoc::{Doc, DocBuilder, RefDoc, RefDocBuilder};
pub use crate::renderer::{PlaintextRenderer, RenderAdaptorExt, Renderer};
pub use crate::termcolor_renderer::{ColorPatch, ColorSpec, TermcolorAction, TermcolorState};
pub use typed_arena::Arena;
