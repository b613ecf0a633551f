//! Checks files against the rules of an `.editorconfig`.

pub mod text;
pub mod glob;
pub mod properties;
pub mod parse;
pub mod check;
pub mod report;
