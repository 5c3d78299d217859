//! The handle types that own documents.

pub mod boxdoc;
pub mod arcdoc;
pub mod refdoc;
