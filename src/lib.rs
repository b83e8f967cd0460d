//! Lays out diagnostic snippets (a title, excerpts of source text and
//! annotations over character ranges of those excerpts) as a sequence of
//! abstract display lines, ready for a renderer.

pub mod snippet;
pub mod line;
pub mod text;
pub mod list;
pub mod laws;
