//! The input of the layout: a snippet, its slices and their annotations.

use vstd::prelude::*;

verus! {

/// Severity of an annotation.
#[derive(Debug, Clone, Copy, PartialEq, Eq, Structural)]
pub enum AnnotationType {
    Error,
    Warning,
    Info,
    Note,
    Help,
}

/// An annotation of a whole snippet (its title or a footer line).
#[derive(Debug)]
pub struct Annotation<'a> {
    pub id: Option<&'a str>,
    pub label: Option<&'a str>,
    pub annotation_type: AnnotationType,
}

/// A labelled annotation over the characters `range.0 .. range.1` of a
/// slice's source; the range may cross line boundaries.
#[derive(Debug)]
pub struct SourceAnnotation<'a> {
    pub range: (usize, usize),
    pub label: &'a str,
    pub annotation_type: AnnotationType,
}

/// A highlight over the characters `range.0 .. range.1` of a slice's source,
/// which must lie within one line.
#[derive(Debug, Clone, Copy)]
pub struct InlineAnnotation {
    pub range: (usize, usize),
    pub annotation_type: AnnotationType,
}

/// One excerpt of source text with its annotations. Offsets in the
/// annotations count characters from the start of `source`.
#[derive(Debug)]
pub struct Slice<'a> {
    pub source: &'a str,
    pub line_start: Option<usize>,
    pub origin: Option<&'a str>,
    pub annotations: Vec<SourceAnnotation<'a>>,
    pub inline_annotations: Vec<InlineAnnotation>,
    pub fold: bool,
}

/// A whole diagnostic: an optional title, its slices, and footer
/// annotations that the layout passes over.
#[derive(Debug)]
pub struct Snippet<'a> {
    pub title: Option<Annotation<'a>>,
    pub footer: Vec<Annotation<'a>>,
    pub slices: Vec<Slice<'a>>,
}

} // verus!
