//! The display line model produced by the layout, and its mathematical view.

use vstd::prelude::*;
use crate::snippet::AnnotationType;

verus! {

/// Whether a multi-line annotation starts on, passes through, or ends on a line.
#[derive(Debug, Clone, Copy, PartialEq, Eq, Structural)]
pub enum DisplayMarkType {
    AnnotationStart,
    AnnotationThrough,
    AnnotationEnd,
}

/// A left-margin connector for a multi-line annotation.
#[derive(Debug, Clone, Copy, PartialEq, Eq, Structural)]
pub struct DisplayMark {
    pub mark_type: DisplayMarkType,
    pub annotation_type: AnnotationType,
}

/// An annotation as shown on a display line.
#[derive(Debug)]
pub struct Annotation<'a> {
    pub annotation_type: AnnotationType,
    pub id: Option<&'a str>,
    pub label: &'a str,
}

/// A run of a line's text, plain or highlighted.
#[derive(Debug)]
pub enum DisplayContentElement<'a> {
    Text(&'a str),
    AnnotatedText { text: &'a str, annotation_type: AnnotationType },
}

/// What a source-aligned display line holds.
#[derive(Debug)]
pub enum DisplaySourceLine<'a> {
    Content(Vec<DisplayContentElement<'a>>),
    Annotation { annotation: Annotation<'a>, range: (usize, usize) },
    Empty,
}

/// A display line that is not aligned with source text.
#[derive(Debug)]
pub enum DisplayRawLine<'a> {
    Origin { path: &'a str, pos: (Option<usize>, Option<usize>) },
    Annotation { annotation: Annotation<'a>, source_aligned: bool, continuation: bool },
}

/// One line of the display model.
#[derive(Debug)]
pub enum DisplayLine<'a> {
    Source {
        lineno: Option<usize>,
        inline_marks: Vec<DisplayMark>,
        line: DisplaySourceLine<'a>,
    },
    Raw(DisplayRawLine<'a>),
}

/// The view of an annotation: its text as character sequences.
pub struct AnnotationModel {
    pub annotation_type: AnnotationType,
    pub id: Option<Seq<char>>,
    pub label: Seq<char>,
}

/// The view of a content element.
pub enum ContentModel {
    Text(Seq<char>),
    AnnotatedText(Seq<char>, AnnotationType),
}

/// The view of what a source-aligned line holds.
pub enum SourceLineModel {
    Content(Seq<ContentModel>),
    Annotation(AnnotationModel, (usize, usize)),
    Empty,
}

/// The view of a display line.
pub enum LineModel {
    Source(Option<usize>, Seq<DisplayMark>, SourceLineModel),
    Origin(Seq<char>, (Option<usize>, Option<usize>)),
    Title(AnnotationModel, bool, bool),
}

pub open spec fn opt_str_view(s: Option<&str>) -> Option<Seq<char>> {
    match s {
        Some(t) => Some(t@),
        None => None,
    }
}

impl<'a> View for Annotation<'a> {
    type V = AnnotationModel;

    open spec fn view(&self) -> AnnotationModel {
        AnnotationModel {
            annotation_type: self.annotation_type,
            id: opt_str_view(self.id),
            label: self.label@,
        }
    }
}

impl<'a> View for DisplayContentElement<'a> {
    type V = ContentModel;

    open spec fn view(&self) -> ContentModel {
        match self {
            DisplayContentElement::Text(t) => ContentModel::Text(t@),
            DisplayContentElement::AnnotatedText { text, annotation_type } => {
                ContentModel::AnnotatedText(text@, *annotation_type)
            },
        }
    }
}

/// The views of a sequence of content elements.
pub open spec fn content_view(s: Seq<DisplayContentElement>) -> Seq<ContentModel> {
    s.map_values(|e: DisplayContentElement| e@)
}

impl<'a> View for DisplaySourceLine<'a> {
    type V = SourceLineModel;

    open spec fn view(&self) -> SourceLineModel {
        match self {
            DisplaySourceLine::Content(v) => SourceLineModel::Content(content_view(v@)),
            DisplaySourceLine::Annotation { annotation, range } => {
                SourceLineModel::Annotation(annotation@, *range)
            },
            DisplaySourceLine::Empty => SourceLineModel::Empty,
        }
    }
}

impl<'a> View for DisplayLine<'a> {
    type V = LineModel;

    open spec fn view(&self) -> LineModel {
        match self {
            DisplayLine::Source { lineno, inline_marks, line } => {
                LineModel::Source(*lineno, inline_marks@, line@)
            },
            DisplayLine::Raw(DisplayRawLine::Origin { path, pos }) => LineModel::Origin(path@, *pos),
            DisplayLine::Raw(DisplayRawLine::Annotation { annotation, source_aligned, continuation }) => {
                LineModel::Title(annotation@, *source_aligned, *continuation)
            },
        }
    }
}

/// The views of a sequence of display lines.
pub open spec fn lines_view(s: Seq<DisplayLine>) -> Seq<LineModel> {
    s.map_values(|l: DisplayLine| l@)
}

/// Appends a line to `body`.
pub fn push_line<'a>(body: &mut Vec<DisplayLine<'a>>, l: DisplayLine<'a>)
    ensures
        lines_view(final(body)@) == lines_view(old(body)@).push(l@),
{
    body.push(l);
    assert(lines_view(body@) =~= lines_view(old(body)@).push(l@));
}

/// Moves all lines of `other` to the end of `body`.
pub fn append_lines<'a>(body: &mut Vec<DisplayLine<'a>>, other: &mut Vec<DisplayLine<'a>>)
    ensures
        lines_view(final(body)@) == lines_view(old(body)@) + lines_view(old(other)@),
{
    body.append(other);
    assert(lines_view(body@) =~= lines_view(old(body)@) + lines_view(old(other)@));
}

/// Appends a content element to `frags`.
pub fn push_content<'a>(frags: &mut Vec<DisplayContentElement<'a>>, e: DisplayContentElement<'a>)
    ensures
        content_view(final(frags)@) == content_view(old(frags)@).push(e@),
{
    frags.push(e);
    assert(content_view(frags@) =~= content_view(old(frags)@).push(e@));
}

} // verus!
