use annotate_snippets::line::{
    DisplayContentElement, DisplayLine, DisplayMark, DisplayMarkType, DisplayRawLine,
    DisplaySourceLine,
};
use annotate_snippets::list::{get_header_pos, validate_slice, DisplayList, LayoutError};
use annotate_snippets::snippet::{
    Annotation, AnnotationType, InlineAnnotation, Slice, Snippet, SourceAnnotation,
};

fn slice<'a>(
    source: &'a str,
    line_start: Option<usize>,
    annotations: Vec<SourceAnnotation<'a>>,
    inline_annotations: Vec<InlineAnnotation>,
) -> Slice<'a> {
    Slice {
        source,
        line_start,
        origin: None,
        annotations,
        inline_annotations,
        fold: false,
    }
}

fn ranged(start: usize, end: usize, label: &str, annotation_type: AnnotationType) -> SourceAnnotation<'_> {
    SourceAnnotation { range: (start, end), label, annotation_type }
}

fn inline(start: usize, end: usize, annotation_type: AnnotationType) -> InlineAnnotation {
    InlineAnnotation { range: (start, end), annotation_type }
}

fn is_blank(l: &DisplayLine) -> bool {
    matches!(
        l,
        DisplayLine::Source { lineno: None, inline_marks, line: DisplaySourceLine::Empty } if inline_marks.is_empty()
    )
}

fn content_text(l: &DisplayLine) -> Option<String> {
    match l {
        DisplayLine::Source { line: DisplaySourceLine::Content(frags), .. } => {
            let mut s = String::new();
            for f in frags {
                match f {
                    DisplayContentElement::Text(t) => s.push_str(t),
                    DisplayContentElement::AnnotatedText { text, .. } => s.push_str(text),
                }
            }
            Some(s)
        }
        _ => None,
    }
}

fn mark(mark_type: DisplayMarkType, annotation_type: AnnotationType) -> DisplayMark {
    DisplayMark { mark_type, annotation_type }
}

#[test]
fn single_line_contained_annotation() {
    let s = slice("let x = 1;", Some(1), vec![ranged(4, 5, "variable", AnnotationType::Error)], vec![]);
    let dl = DisplayList::from_slice(&s).unwrap();
    assert_eq!(dl.body.len(), 4);
    assert!(is_blank(&dl.body[0]));
    match &dl.body[1] {
        DisplayLine::Source { lineno, inline_marks, line: DisplaySourceLine::Content(frags) } => {
            assert_eq!(*lineno, Some(1));
            assert!(inline_marks.is_empty());
            assert_eq!(frags.len(), 1);
            assert!(matches!(frags[0], DisplayContentElement::Text("let x = 1;")));
        }
        _ => panic!("expected a content line"),
    }
    match &dl.body[2] {
        DisplayLine::Source { lineno, inline_marks, line: DisplaySourceLine::Annotation { annotation, range } } => {
            assert_eq!(*lineno, None);
            assert!(inline_marks.is_empty());
            assert_eq!(*range, (4, 5));
            assert_eq!(annotation.label, "variable");
            assert_eq!(annotation.annotation_type, AnnotationType::Error);
            assert_eq!(annotation.id, None);
        }
        _ => panic!("expected an underline line"),
    }
    assert!(is_blank(&dl.body[3]));
}

#[test]
fn annotation_spanning_two_lines() {
    let s = slice("foo(\nbar)", Some(10), vec![ranged(2, 7, "call", AnnotationType::Warning)], vec![]);
    let dl = DisplayList::from_slice(&s).unwrap();
    assert_eq!(dl.body.len(), 5);
    match &dl.body[1] {
        DisplayLine::Source { lineno, inline_marks, line } => {
            assert_eq!(*lineno, Some(10));
            assert_eq!(inline_marks, &vec![mark(DisplayMarkType::AnnotationStart, AnnotationType::Warning)]);
            assert!(matches!(line, DisplaySourceLine::Content(_)));
        }
        _ => panic!("expected a content line"),
    }
    assert_eq!(content_text(&dl.body[1]).unwrap(), "foo(");
    match &dl.body[2] {
        DisplayLine::Source { lineno, inline_marks, .. } => {
            assert_eq!(*lineno, Some(11));
            assert_eq!(inline_marks, &vec![mark(DisplayMarkType::AnnotationThrough, AnnotationType::Warning)]);
        }
        _ => panic!("expected a content line"),
    }
    assert_eq!(content_text(&dl.body[2]).unwrap(), "bar)");
    match &dl.body[3] {
        DisplayLine::Source { lineno, inline_marks, line: DisplaySourceLine::Annotation { annotation, range } } => {
            assert_eq!(*lineno, None);
            assert_eq!(inline_marks, &vec![mark(DisplayMarkType::AnnotationEnd, AnnotationType::Warning)]);
            assert_eq!(*range, (0, 2));
            assert_eq!(annotation.label, "call");
        }
        _ => panic!("expected an underline line"),
    }
    assert!(is_blank(&dl.body[4]));
}

#[test]
fn two_inline_annotations_no_overlap() {
    let s = slice(
        "a+b",
        None,
        vec![],
        vec![inline(0, 1, AnnotationType::Info), inline(2, 3, AnnotationType::Note)],
    );
    let dl = DisplayList::from_slice(&s).unwrap();
    assert_eq!(dl.body.len(), 3);
    match &dl.body[1] {
        DisplayLine::Source { lineno: None, line: DisplaySourceLine::Content(frags), .. } => {
            assert_eq!(frags.len(), 3);
            assert!(matches!(
                frags[0],
                DisplayContentElement::AnnotatedText { text: "a", annotation_type: AnnotationType::Info }
            ));
            assert!(matches!(frags[1], DisplayContentElement::Text("+")));
            assert!(matches!(
                frags[2],
                DisplayContentElement::AnnotatedText { text: "b", annotation_type: AnnotationType::Note }
            ));
        }
        _ => panic!("expected a content line without number"),
    }
}

#[test]
fn inline_annotations_are_sorted_by_start() {
    let s = slice(
        "x = y + z",
        None,
        vec![],
        vec![inline(8, 9, AnnotationType::Help), inline(4, 5, AnnotationType::Error)],
    );
    let dl = DisplayList::from_slice(&s).unwrap();
    match &dl.body[1] {
        DisplayLine::Source { line: DisplaySourceLine::Content(frags), .. } => {
            assert_eq!(frags.len(), 4);
            assert!(matches!(frags[0], DisplayContentElement::Text("x = ")));
            assert!(matches!(
                frags[1],
                DisplayContentElement::AnnotatedText { text: "y", annotation_type: AnnotationType::Error }
            ));
            assert!(matches!(frags[2], DisplayContentElement::Text(" + ")));
            assert!(matches!(
                frags[3],
                DisplayContentElement::AnnotatedText { text: "z", annotation_type: AnnotationType::Help }
            ));
        }
        _ => panic!("expected a content line"),
    }
}

#[test]
fn empty_slice() {
    let s = slice("", Some(1), vec![], vec![]);
    let dl = DisplayList::from_slice(&s).unwrap();
    assert_eq!(dl.body.len(), 2);
    assert!(is_blank(&dl.body[0]));
    assert!(is_blank(&dl.body[1]));
}

#[test]
fn malformed_range() {
    let s = slice("0123456789", Some(1), vec![ranged(0, 1000, "x", AnnotationType::Error)], vec![]);
    assert_eq!(DisplayList::from_slice(&s).err(), Some(LayoutError::MalformedRange));
    assert_eq!(validate_slice(&s), Err(LayoutError::MalformedRange));
}

#[test]
fn start_after_end_is_malformed() {
    let s = slice("abcdef", None, vec![ranged(4, 2, "x", AnnotationType::Error)], vec![]);
    assert_eq!(DisplayList::from_slice(&s).err(), Some(LayoutError::MalformedRange));
}

#[test]
fn end_of_text_bounds() {
    let ok = slice("abc", None, vec![ranged(3, 3, "eof", AnnotationType::Error)], vec![]);
    let dl = DisplayList::from_slice(&ok).unwrap();
    assert_eq!(dl.body.len(), 4);
    match &dl.body[2] {
        DisplayLine::Source { line: DisplaySourceLine::Annotation { range, .. }, .. } => assert_eq!(*range, (3, 3)),
        _ => panic!("expected an underline line"),
    }
    let past = slice("abc", None, vec![ranged(0, 4, "x", AnnotationType::Error)], vec![]);
    assert_eq!(DisplayList::from_slice(&past).err(), Some(LayoutError::MalformedRange));
    let terminated = slice("abc\n", None, vec![ranged(0, 4, "x", AnnotationType::Error)], vec![]);
    assert_eq!(DisplayList::from_slice(&terminated).err(), Some(LayoutError::MalformedRange));
    let empty = slice("", None, vec![ranged(0, 0, "x", AnnotationType::Error)], vec![]);
    assert_eq!(DisplayList::from_slice(&empty).err(), Some(LayoutError::MalformedRange));
}

#[test]
fn overlapping_inline_annotations() {
    let s = slice("abcdef", None, vec![], vec![inline(0, 3, AnnotationType::Error), inline(2, 4, AnnotationType::Info)]);
    assert_eq!(DisplayList::from_slice(&s).err(), Some(LayoutError::OverlappingInlineAnnotations));
    assert_eq!(validate_slice(&s), Err(LayoutError::OverlappingInlineAnnotations));
}

#[test]
fn malformed_range_is_reported_before_overlap() {
    let s = slice(
        "abcdef",
        None,
        vec![ranged(0, 100, "x", AnnotationType::Error)],
        vec![inline(0, 3, AnnotationType::Error), inline(2, 4, AnnotationType::Info)],
    );
    assert_eq!(validate_slice(&s), Err(LayoutError::MalformedRange));
}

#[test]
fn inline_annotation_crossing_a_line_is_malformed() {
    let s = slice("ab\ncd", None, vec![], vec![inline(1, 4, AnnotationType::Error)]);
    assert_eq!(DisplayList::from_slice(&s).err(), Some(LayoutError::MalformedRange));
}

#[test]
fn fragments_rebuild_each_line() {
    let source = "fn main() {\n    let x = 1;\n}";
    let s = slice(
        source,
        Some(1),
        vec![ranged(3, 7, "name", AnnotationType::Info)],
        vec![inline(0, 2, AnnotationType::Note), inline(20, 21, AnnotationType::Error)],
    );
    let dl = DisplayList::from_slice(&s).unwrap();
    let texts: Vec<String> = dl.body.iter().filter_map(content_text).collect();
    let lines: Vec<&str> = source.lines().collect();
    assert_eq!(texts, lines);
}

#[test]
fn one_content_line_per_source_line() {
    let source = "a\n\nbc\n";
    let s = slice(source, Some(5), vec![ranged(0, 1, "a", AnnotationType::Error), ranged(3, 4, "b", AnnotationType::Error)], vec![]);
    let dl = DisplayList::from_slice(&s).unwrap();
    let numbers: Vec<Option<usize>> = dl
        .body
        .iter()
        .filter_map(|l| match l {
            DisplayLine::Source { lineno, line: DisplaySourceLine::Content(_), .. } => Some(*lineno),
            _ => None,
        })
        .collect();
    assert_eq!(numbers, vec![Some(5), Some(6), Some(7)]);
    assert_eq!(dl.body.len(), 2 + 3 + 2);
    let empty_line = content_text(&dl.body[3]).unwrap();
    assert_eq!(empty_line, "");
}

#[test]
fn marks_follow_declaration_order() {
    let source = "one\ntwo\nthree";
    let s = slice(
        source,
        None,
        vec![ranged(5, 9, "second", AnnotationType::Warning), ranged(1, 10, "first", AnnotationType::Error)],
        vec![],
    );
    let dl = DisplayList::from_slice(&s).unwrap();
    match &dl.body[2] {
        DisplayLine::Source { inline_marks, .. } => assert_eq!(
            inline_marks,
            &vec![
                mark(DisplayMarkType::AnnotationStart, AnnotationType::Warning),
                mark(DisplayMarkType::AnnotationThrough, AnnotationType::Error),
            ]
        ),
        _ => panic!("expected a content line"),
    }
}

#[test]
fn underlines_on_one_line_keep_declaration_order() {
    let s = slice(
        "let x = y;",
        None,
        vec![ranged(8, 9, "later", AnnotationType::Info), ranged(4, 5, "earlier", AnnotationType::Error)],
        vec![],
    );
    let dl = DisplayList::from_slice(&s).unwrap();
    assert_eq!(dl.body.len(), 5);
    let labels: Vec<(&str, (usize, usize))> = dl
        .body
        .iter()
        .filter_map(|l| match l {
            DisplayLine::Source { line: DisplaySourceLine::Annotation { annotation, range }, .. } => {
                Some((annotation.label, *range))
            }
            _ => None,
        })
        .collect();
    assert_eq!(labels, vec![("later", (8, 9)), ("earlier", (4, 5))]);
}

#[test]
fn underline_range_is_relative_to_its_line() {
    let s = slice("ab\ncdef", Some(1), vec![ranged(4, 6, "mid", AnnotationType::Error)], vec![]);
    let dl = DisplayList::from_slice(&s).unwrap();
    match &dl.body[3] {
        DisplayLine::Source { line: DisplaySourceLine::Annotation { range, .. }, .. } => assert_eq!(*range, (1, 3)),
        _ => panic!("expected an underline line"),
    }
}

#[test]
fn pass_through_mark_on_middle_lines() {
    let s = slice("a\nb\nc", None, vec![ranged(0, 5, "all", AnnotationType::Error)], vec![]);
    let dl = DisplayList::from_slice(&s).unwrap();
    let marks: Vec<Vec<DisplayMark>> = dl
        .body
        .iter()
        .filter_map(|l| match l {
            DisplayLine::Source { inline_marks, line: DisplaySourceLine::Content(_), .. } => Some(inline_marks.clone()),
            _ => None,
        })
        .collect();
    assert_eq!(
        marks,
        vec![
            vec![mark(DisplayMarkType::AnnotationStart, AnnotationType::Error)],
            vec![mark(DisplayMarkType::AnnotationThrough, AnnotationType::Error)],
            vec![mark(DisplayMarkType::AnnotationThrough, AnnotationType::Error)],
        ]
    );
}

#[test]
fn snippet_with_title_and_origins() {
    let snippet = Snippet {
        title: Some(Annotation { id: Some("E0308"), label: Some("mismatched types"), annotation_type: AnnotationType::Error }),
        footer: vec![],
        slices: vec![
            Slice { source: "Foo", line_start: Some(51), origin: Some("src/format.rs"), annotations: vec![], inline_annotations: vec![], fold: false },
            Slice { source: "Faa", line_start: Some(129), origin: Some("src/display.rs"), annotations: vec![], inline_annotations: vec![], fold: false },
        ],
    };
    let dl = DisplayList::from_snippet(&snippet).unwrap();
    assert_eq!(dl.body.len(), 1 + 4 + 4);
    match &dl.body[0] {
        DisplayLine::Raw(DisplayRawLine::Annotation { annotation, source_aligned, continuation }) => {
            assert_eq!(annotation.label, "mismatched types");
            assert_eq!(annotation.id, Some("E0308"));
            assert_eq!(annotation.annotation_type, AnnotationType::Error);
            assert!(!*source_aligned);
            assert!(!*continuation);
        }
        _ => panic!("expected the title line"),
    }
    match &dl.body[1] {
        DisplayLine::Raw(DisplayRawLine::Origin { path, pos }) => {
            assert_eq!(*path, "src/format.rs");
            assert_eq!(*pos, (Some(51), None));
        }
        _ => panic!("expected an origin line"),
    }
    assert_eq!(content_text(&dl.body[3]).unwrap(), "Foo");
    match &dl.body[5] {
        DisplayLine::Raw(DisplayRawLine::Origin { path, pos }) => {
            assert_eq!(*path, "src/display.rs");
            assert_eq!(*pos, (Some(129), None));
        }
        _ => panic!("expected an origin line"),
    }
}

#[test]
fn title_without_label_has_empty_label() {
    let snippet = Snippet {
        title: Some(Annotation { id: None, label: None, annotation_type: AnnotationType::Warning }),
        footer: vec![],
        slices: vec![],
    };
    let dl = DisplayList::from_snippet(&snippet).unwrap();
    assert_eq!(dl.body.len(), 1);
    match &dl.body[0] {
        DisplayLine::Raw(DisplayRawLine::Annotation { annotation, .. }) => assert_eq!(annotation.label, ""),
        _ => panic!("expected the title line"),
    }
}

#[test]
fn snippet_fails_on_first_bad_slice() {
    let snippet = Snippet {
        title: None,
        footer: vec![],
        slices: vec![
            slice("ok", None, vec![], vec![]),
            slice("abcd", None, vec![], vec![inline(0, 2, AnnotationType::Error), inline(1, 3, AnnotationType::Error)]),
            slice("x", None, vec![ranged(0, 9, "x", AnnotationType::Error)], vec![]),
        ],
    };
    assert_eq!(DisplayList::from_snippet(&snippet).err(), Some(LayoutError::OverlappingInlineAnnotations));
}

#[test]
fn header_position_has_no_column() {
    let s = slice("x", Some(26), vec![], vec![]);
    assert_eq!(get_header_pos(&s), (Some(26), None));
    let t = slice("x", None, vec![], vec![]);
    assert_eq!(get_header_pos(&t), (None, None));
}

#[test]
fn non_ascii_text_is_split_by_characters() {
    let s = slice("héllo wörld", None, vec![], vec![inline(6, 11, AnnotationType::Error)]);
    let dl = DisplayList::from_slice(&s).unwrap();
    match &dl.body[1] {
        DisplayLine::Source { line: DisplaySourceLine::Content(frags), .. } => {
            assert_eq!(frags.len(), 2);
            assert!(matches!(frags[0], DisplayContentElement::Text("héllo ")));
            assert!(matches!(frags[1], DisplayContentElement::AnnotatedText { text: "wörld", .. }));
        }
        _ => panic!("expected a content line"),
    }
}

#[test]
fn empty_inline_annotation_at_line_end() {
    let s = slice("ab", None, vec![], vec![inline(2, 2, AnnotationType::Error)]);
    let dl = DisplayList::from_slice(&s).unwrap();
    match &dl.body[1] {
        DisplayLine::Source { line: DisplaySourceLine::Content(frags), .. } => {
            assert_eq!(frags.len(), 2);
            assert!(matches!(frags[0], DisplayContentElement::Text("ab")));
            assert!(matches!(frags[1], DisplayContentElement::AnnotatedText { text: "", .. }));
        }
        _ => panic!("expected a content line"),
    }
}
