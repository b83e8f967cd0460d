//! The layout engine: from a snippet or a slice to its display lines.

use vstd::prelude::*;
use crate::line::{
    append_lines, content_view, lines_view, push_content, push_line, Annotation, AnnotationModel,
    ContentModel, DisplayContentElement, DisplayLine, DisplayMark, DisplayMarkType,
    DisplayRawLine, DisplaySourceLine, LineModel, SourceLineModel, opt_str_view,
};
use crate::snippet::{InlineAnnotation, Slice, Snippet, SourceAnnotation};
use crate::text::{chars_of, covered_len, line_end, lines_of, lines_scan};

verus! {

broadcast use vstd::string::group_string_axioms;

/// The display lines of a snippet.
#[derive(Debug)]
pub struct DisplayList<'d> {
    pub body: Vec<DisplayLine<'d>>,
}

/// Why a snippet or a slice cannot be laid out.
#[derive(Debug, Clone, Copy, PartialEq, Eq, Structural)]
pub enum LayoutError {
    /// A range whose start is after its end, that reaches past what the
    /// source's lines cover, or an inline range that crosses a line end.
    MalformedRange,
    /// Two inline annotations whose ranges overlap.
    OverlappingInlineAnnotations,
}

pub open spec fn in_range(x: int, st: int, en: int) -> bool {
    st <= x < en
}

/// The connector that a ranged annotation `a .. b` leaves on the content
/// line whose range is `st .. en`, for an annotation not resolved on an
/// earlier line. One that ends here leaves a pass-through connector, and
/// its underline line carries the end connector.
pub open spec fn mark_type_of(a: int, b: int, st: int, en: int) -> Option<DisplayMarkType> {
    if in_range(a, st, en) && in_range(b, st, en) {
        None
    } else if in_range(a, st, en) {
        Some(DisplayMarkType::AnnotationStart)
    } else if a < st && b > en {
        Some(DisplayMarkType::AnnotationThrough)
    } else if in_range(b, st, en) {
        Some(DisplayMarkType::AnnotationThrough)
    } else {
        None
    }
}

/// A ranged annotation is still pending when a line starting at `st` is
/// reached exactly when its end is not before `st`: it is resolved on the
/// line whose range holds its end.
pub open spec fn pending_at(x: SourceAnnotation, st: int) -> bool {
    x.range.1 >= st
}

/// The connectors of the content line `st .. en`, in declaration order.
pub open spec fn line_marks(anns: Seq<SourceAnnotation>, st: int, en: int) -> Seq<DisplayMark>
    decreases anns.len(),
{
    if anns.len() == 0 {
        seq![]
    } else {
        let prev = line_marks(anns.drop_last(), st, en);
        let x = anns.last();
        let m = mark_type_of(x.range.0 as int, x.range.1 as int, st, en);
        if pending_at(x, st) && m is Some {
            prev.push(DisplayMark { mark_type: m->0, annotation_type: x.annotation_type })
        } else {
            prev
        }
    }
}

/// The underline line of annotation `x`, resolved on the line starting at `st`.
pub open spec fn underline_of(x: SourceAnnotation, st: int) -> LineModel {
    let a = x.range.0 as int;
    let b = x.range.1 as int;
    LineModel::Source(
        None,
        if a < st {
            seq![DisplayMark { mark_type: DisplayMarkType::AnnotationEnd, annotation_type: x.annotation_type }]
        } else {
            seq![]
        },
        SourceLineModel::Annotation(
            AnnotationModel { annotation_type: x.annotation_type, id: None, label: x.label@ },
            ((if a >= st { a - st } else { 0 }) as usize, (b - st) as usize),
        ),
    )
}

/// The underline lines that follow the content line `st .. en`: one for
/// each annotation resolved there, in declaration order.
pub open spec fn line_underlines(anns: Seq<SourceAnnotation>, st: int, en: int) -> Seq<LineModel>
    decreases anns.len(),
{
    if anns.len() == 0 {
        seq![]
    } else {
        let prev = line_underlines(anns.drop_last(), st, en);
        let x = anns.last();
        if in_range(x.range.1 as int, st, en) {
            prev.push(underline_of(x, st))
        } else {
            prev
        }
    }
}

/// Inline annotations are ordered by start, then by end.
pub open spec fn key_le(x: InlineAnnotation, y: InlineAnnotation) -> bool {
    x.range.0 < y.range.0 || (x.range.0 == y.range.0 && x.range.1 <= y.range.1)
}

pub open spec fn inline_on_line(x: InlineAnnotation, st: int, en: int) -> bool {
    in_range(x.range.0 as int, st, en) && in_range(x.range.1 as int, st, en)
}

/// Where `x` goes among the indices `order`, from position `j` on: after
/// every entry whose annotation does not come after it.
pub open spec fn insert_pos(anns: Seq<InlineAnnotation>, order: Seq<usize>, x: InlineAnnotation, j: int) -> int
    decreases order.len() - j,
{
    if j < 0 || j >= order.len() {
        j
    } else if !key_le(anns[order[j] as int], x) {
        j
    } else {
        insert_pos(anns, order, x, j + 1)
    }
}

/// The indices of the first `n` inline annotations that lie on the line
/// `st .. en`, stably sorted by start and end.
pub open spec fn line_order(anns: Seq<InlineAnnotation>, st: int, en: int, n: int) -> Seq<usize>
    decreases n,
{
    if n <= 0 {
        seq![]
    } else {
        let prev = line_order(anns, st, en, n - 1);
        if inline_on_line(anns[n - 1], st, en) {
            prev.insert(insert_pos(anns, prev, anns[n - 1], 0), (n - 1) as usize)
        } else {
            prev
        }
    }
}

/// The content of line `line`, which starts at `st`, from the `j`-th of the
/// sorted inline annotations on, with the text before `ptr` already emitted.
pub open spec fn frags_from(
    line: Seq<char>,
    anns: Seq<InlineAnnotation>,
    order: Seq<usize>,
    st: int,
    j: int,
    ptr: int,
) -> Seq<ContentModel>
    decreases order.len() - j,
{
    if j < 0 || j >= order.len() {
        if ptr < line.len() {
            seq![ContentModel::Text(line.subrange(ptr, line.len() as int))]
        } else {
            seq![]
        }
    } else {
        let x = anns[order[j] as int];
        let a = x.range.0 - st;
        let b = x.range.1 - st;
        (if ptr < a {
            seq![ContentModel::Text(line.subrange(ptr, a))]
        } else {
            seq![]
        }) + seq![ContentModel::AnnotatedText(line.subrange(a, b), x.annotation_type)]
            + frags_from(line, anns, order, st, j + 1, b)
    }
}

/// The content of a line: the whole line as one text run when no inline
/// annotation lies on it; else the highlighted runs in order, with the
/// non-empty gaps between them.
pub open spec fn line_content(line: Seq<char>, anns: Seq<InlineAnnotation>, order: Seq<usize>, st: int) -> Seq<ContentModel> {
    if order.len() == 0 {
        seq![ContentModel::Text(line)]
    } else {
        frags_from(line, anns, order, st, 0, 0)
    }
}

pub open spec fn lineno_of(line_start: Option<usize>, k: int) -> Option<usize> {
    match line_start {
        Some(n) => Some((n + k) as usize),
        None => None,
    }
}

/// The content line of physical line `k` of `s`, then its underline lines.
pub open spec fn line_block(s: Slice, k: int) -> Seq<LineModel> {
    let src = s.source@;
    let st = lines_of(src)[k].0;
    let e = lines_of(src)[k].1;
    let en = e + 1;
    let inl = s.inline_annotations@;
    seq![LineModel::Source(
        lineno_of(s.line_start, k),
        line_marks(s.annotations@, st, en),
        SourceLineModel::Content(line_content(src.subrange(st, e), inl, line_order(inl, st, en, inl.len() as int), st)),
    )] + line_underlines(s.annotations@, st, en)
}

/// The blocks of the first `k` physical lines of `s`.
pub open spec fn blocks(s: Slice, k: int) -> Seq<LineModel>
    decreases k,
{
    if k <= 0 {
        seq![]
    } else {
        blocks(s, k - 1) + line_block(s, k - 1)
    }
}

pub open spec fn blank_line() -> LineModel {
    LineModel::Source(None, seq![], SourceLineModel::Empty)
}

pub open spec fn origin_lines(s: Slice) -> Seq<LineModel> {
    match s.origin {
        Some(p) => seq![LineModel::Origin(p@, (s.line_start, None))],
        None => seq![],
    }
}

/// The display lines of a slice: its origin header if any, a blank line,
/// one block per physical line, and a closing blank line.
pub open spec fn slice_layout(s: Slice) -> Seq<LineModel> {
    origin_lines(s) + seq![blank_line()] + blocks(s, lines_of(s.source@).len() as int) + seq![blank_line()]
}

/// A ranged annotation is well formed when its start is not after its end
/// and its end lies in the range of some line.
pub open spec fn ranged_ok(x: SourceAnnotation, src: Seq<char>) -> bool {
    x.range.0 <= x.range.1 && x.range.1 < covered_len(src)
}

/// An inline annotation is well formed when it is a ranged one that holds
/// no line terminator.
pub open spec fn inline_ok(x: InlineAnnotation, src: Seq<char>) -> bool {
    &&& x.range.0 <= x.range.1
    &&& x.range.1 < covered_len(src)
    &&& forall|k: int| x.range.0 <= k < x.range.1 ==> src[k] != '\n'
}

/// Neither range reaches into the other.
pub open spec fn disjoint(x: InlineAnnotation, y: InlineAnnotation) -> bool {
    x.range.1 <= y.range.0 || y.range.1 <= x.range.0
}

pub open spec fn ranges_ok(s: Slice) -> bool {
    &&& forall|i: int| 0 <= i < s.annotations@.len() ==> ranged_ok(#[trigger] s.annotations@[i], s.source@)
    &&& forall|i: int| 0 <= i < s.inline_annotations@.len() ==> inline_ok(#[trigger] s.inline_annotations@[i], s.source@)
}

pub open spec fn inline_disjoint(anns: Seq<InlineAnnotation>) -> bool {
    forall|i: int, j: int|
        0 <= i < anns.len() && 0 <= j < anns.len() && i != j ==> disjoint(#[trigger] anns[i], #[trigger] anns[j])
}

/// A slice that the layout accepts.
pub open spec fn slice_valid(s: Slice) -> bool {
    ranges_ok(s) && inline_disjoint(s.inline_annotations@)
}

/// Sizes stay within machine integers: offsets one past the source, and
/// line numbers.
pub open spec fn slice_fits(s: Slice) -> bool {
    &&& s.source@.len() < usize::MAX
    &&& s.line_start is Some ==> s.line_start->0 + s.source@.len() <= usize::MAX
}

/// `order` lists distinct indices of the first `n` annotations, each on the
/// line `st .. en`, sorted by start and end.
pub open spec fn order_ok(anns: Seq<InlineAnnotation>, st: int, en: int, n: int, order: Seq<usize>) -> bool {
    &&& forall|j: int| 0 <= j < order.len() ==> #[trigger] order[j] < n && inline_on_line(anns[order[j] as int], st, en)
    &&& forall|j1: int, j2: int| 0 <= j1 < j2 < order.len() ==> #[trigger] order[j1] != #[trigger] order[j2]
    &&& forall|j1: int, j2: int|
        0 <= j1 < j2 < order.len() ==> key_le(#[trigger] anns[order[j1] as int], #[trigger] anns[order[j2] as int])
}

proof fn lemma_insert_pos(anns: Seq<InlineAnnotation>, order: Seq<usize>, x: InlineAnnotation, j: int)
    requires
        0 <= j <= order.len(),
        forall|i: int| 0 <= i < j ==> key_le(anns[#[trigger] order[i] as int], x),
    ensures
        j <= insert_pos(anns, order, x, j) <= order.len(),
        forall|i: int| 0 <= i < insert_pos(anns, order, x, j) ==> key_le(anns[#[trigger] order[i] as int], x),
        insert_pos(anns, order, x, j) < order.len() ==> !key_le(anns[order[insert_pos(anns, order, x, j)] as int], x),
    decreases order.len() - j,
{
    if j < order.len() && key_le(anns[order[j] as int], x) {
        lemma_insert_pos(anns, order, x, j + 1);
    }
}

pub(crate) proof fn lemma_line_order(anns: Seq<InlineAnnotation>, st: int, en: int, n: int)
    requires
        0 <= n <= anns.len(),
        anns.len() <= usize::MAX,
    ensures
        order_ok(anns, st, en, n, line_order(anns, st, en, n)),
    decreases n,
{
    if n > 0 {
        lemma_line_order(anns, st, en, n - 1);
        let prev = line_order(anns, st, en, n - 1);
        let x = anns[n - 1];
        if inline_on_line(x, st, en) {
            lemma_insert_pos(anns, prev, x, 0);
            let p = insert_pos(anns, prev, x, 0);
            let o = prev.insert(p, (n - 1) as usize);
            assert(o == line_order(anns, st, en, n));
            assert forall|j: int| 0 <= j < o.len() implies #[trigger] o[j] < n && inline_on_line(anns[o[j] as int], st, en) by {
                if j > p {
                    assert(o[j] == prev[j - 1]);
                } else if j == p {
                    assert(o[j] == (n - 1) as usize);
                } else {
                    assert(o[j] == prev[j]);
                }
            }
            assert forall|j1: int, j2: int| 0 <= j1 < j2 < o.len() implies #[trigger] o[j1] != #[trigger] o[j2] by {
                if j1 > p {
                    assert(o[j1] == prev[j1 - 1]);
                } else if j1 < p {
                    assert(o[j1] == prev[j1]);
                    assert(prev[j1] < n - 1);
                }
                if j2 > p {
                    assert(o[j2] == prev[j2 - 1]);
                    assert(prev[j2 - 1] < n - 1);
                } else if j2 < p {
                    assert(o[j2] == prev[j2]);
                }
            }
            assert forall|j1: int, j2: int| 0 <= j1 < j2 < o.len() implies key_le(
                #[trigger] anns[o[j1] as int],
                #[trigger] anns[o[j2] as int],
            ) by {
                if j2 > p {
                    assert(o[j2] == prev[j2 - 1]);
                    assert(!key_le(anns[prev[p] as int], x));
                    if p < j2 - 1 {
                        assert(key_le(anns[prev[p] as int], anns[prev[j2 - 1] as int]));
                    }
                    if j1 > p {
                        assert(o[j1] == prev[j1 - 1]);
                    }
                }
            }
        }
    }
}

/// The connectors of the content line `st .. en`.
fn marks_for(anns: &Vec<SourceAnnotation>, st: usize, en: usize) -> (r: Vec<DisplayMark>)
    ensures
        r@ == line_marks(anns@, st as int, en as int),
{
    let mut r: Vec<DisplayMark> = Vec::new();
    let mut i: usize = 0;
    while i < anns.len()
        invariant
            i <= anns@.len(),
            r@ == line_marks(anns@.subrange(0, i as int), st as int, en as int),
        decreases anns@.len() - i,
    {
        let x = &anns[i];
        let a = x.range.0;
        let b = x.range.1;
        assert(anns@.subrange(0, i + 1).drop_last() =~= anns@.subrange(0, i as int));
        if b >= st {
            let contains_a = st <= a && a < en;
            let contains_b = st <= b && b < en;
            if contains_a && !contains_b {
                r.push(DisplayMark { mark_type: DisplayMarkType::AnnotationStart, annotation_type: x.annotation_type });
            } else if !contains_a && (a < st && b > en || contains_b) {
                r.push(DisplayMark { mark_type: DisplayMarkType::AnnotationThrough, annotation_type: x.annotation_type });
            }
        }
        i = i + 1;
    }
    assert(anns@.subrange(0, anns@.len() as int) =~= anns@);
    r
}

/// Appends the underline lines of the annotations resolved on the line
/// `st .. en`.
fn push_underlines<'d>(body: &mut Vec<DisplayLine<'d>>, anns: &Vec<SourceAnnotation<'d>>, st: usize, en: usize)
    ensures
        lines_view(final(body)@) == lines_view(old(body)@) + line_underlines(anns@, st as int, en as int),
{
    let mut i: usize = 0;
    while i < anns.len()
        invariant
            i <= anns@.len(),
            lines_view(body@) == lines_view(old(body)@) + line_underlines(anns@.subrange(0, i as int), st as int, en as int),
        decreases anns@.len() - i,
    {
        let x = &anns[i];
        let a = x.range.0;
        let b = x.range.1;
        assert(anns@.subrange(0, i + 1).drop_last() =~= anns@.subrange(0, i as int));
        if st <= b && b < en {
            let marks = if a < st {
                vec![DisplayMark { mark_type: DisplayMarkType::AnnotationEnd, annotation_type: x.annotation_type }]
            } else {
                Vec::new()
            };
            assert(marks@ =~= underline_of(*x, st as int)->Source_1);
            let start: usize = if a >= st { a - st } else { 0 };
            let l = DisplayLine::Source {
                lineno: None,
                inline_marks: marks,
                line: DisplaySourceLine::Annotation {
                    annotation: Annotation { annotation_type: x.annotation_type, id: None, label: x.label },
                    range: (start, b - st),
                },
            };
            assert(l@ =~= underline_of(*x, st as int));
            push_line(body, l);
        }
        i = i + 1;
    }
    assert(anns@.subrange(0, anns@.len() as int) =~= anns@);
}

fn comes_first(y: &InlineAnnotation, x: &InlineAnnotation) -> (r: bool)
    ensures
        r == key_le(*y, *x),
{
    y.range.0 < x.range.0 || (y.range.0 == x.range.0 && y.range.1 <= x.range.1)
}

/// The indices of the inline annotations on the line `st .. en`, stably
/// sorted by start and end.
fn order_for(anns: &Vec<InlineAnnotation>, st: usize, en: usize) -> (r: Vec<usize>)
    ensures
        r@ == line_order(anns@, st as int, en as int, anns@.len() as int),
{
    let mut r: Vec<usize> = Vec::new();
    let mut i: usize = 0;
    while i < anns.len()
        invariant
            i <= anns@.len(),
            r@ == line_order(anns@, st as int, en as int, i as int),
        decreases anns@.len() - i,
    {
        let x = anns[i];
        if st <= x.range.0 && x.range.0 < en && st <= x.range.1 && x.range.1 < en {
            let mut p: usize = 0;
            proof {
                lemma_line_order(anns@, st as int, en as int, i as int);
            }
            while p < r.len() && comes_first(&anns[r[p]], &x)
                invariant
                    i < anns@.len(),
                    p <= r@.len(),
                    r@ == line_order(anns@, st as int, en as int, i as int),
                    forall|j: int| 0 <= j < r@.len() ==> r@[j] < i,
                    insert_pos(anns@, r@, x, 0) == insert_pos(anns@, r@, x, p as int),
                decreases r@.len() - p,
            {
                p = p + 1;
            }
            r.insert(p, i);
        }
        i = i + 1;
    }
    r
}

/// The content elements of the line `st .. e` of `source`.
fn content_for<'d>(source: &'d str, inl: &Vec<InlineAnnotation>, order: &Vec<usize>, st: usize, e: usize) -> (r: Vec<DisplayContentElement<'d>>)
    requires
        st <= e <= source@.len(),
        e < usize::MAX,
        order_ok(inl@, st as int, e + 1, inl@.len() as int, order@),
        forall|i: int| 0 <= i < inl@.len() ==> (#[trigger] inl@[i]).range.0 <= inl@[i].range.1,
        inline_disjoint(inl@),
    ensures
        content_view(r@) == line_content(source@.subrange(st as int, e as int), inl@, order@, st as int),
{
    let ghost line = source@.subrange(st as int, e as int);
    let ghost whole = frags_from(line, inl@, order@, st as int, 0, 0);
    let mut r: Vec<DisplayContentElement<'d>> = Vec::new();
    if order.len() == 0 {
        let t = source.substring_char(st, e);
        push_content(&mut r, DisplayContentElement::Text(t));
        assert(content_view(r@) =~= line_content(line, inl@, order@, st as int));
        return r;
    }
    let mut ptr: usize = 0;
    let mut j: usize = 0;
    while j < order.len()
        invariant
            st <= e <= source@.len(),
            e < usize::MAX,
            line == source@.subrange(st as int, e as int),
            whole == frags_from(line, inl@, order@, st as int, 0, 0),
            order_ok(inl@, st as int, e + 1, inl@.len() as int, order@),
            forall|i: int| 0 <= i < inl@.len() ==> (#[trigger] inl@[i]).range.0 <= inl@[i].range.1,
            inline_disjoint(inl@),
            j <= order@.len(),
            ptr <= e - st,
            j < order@.len() ==> ptr <= inl@[order@[j as int] as int].range.0 - st,
            content_view(r@) + frags_from(line, inl@, order@, st as int, j as int, ptr as int) == whole,
        decreases order@.len() - j,
    {
        let x = inl[order[j]];
        let a = x.range.0 - st;
        let b = x.range.1 - st;
        let ghost before = content_view(r@);
        let ghost gap = if ptr < a {
            seq![ContentModel::Text(line.subrange(ptr as int, a as int))]
        } else {
            seq![]
        };
        if ptr < a {
            let t = source.substring_char(st + ptr, st + a);
            assert(t@ =~= line.subrange(ptr as int, a as int));
            push_content(&mut r, DisplayContentElement::Text(t));
        }
        assert(content_view(r@) =~= before + gap);
        let t = source.substring_char(st + a, st + b);
        assert(t@ =~= line.subrange(a as int, b as int));
        push_content(&mut r, DisplayContentElement::AnnotatedText { text: t, annotation_type: x.annotation_type });
        assert(content_view(r@) + frags_from(line, inl@, order@, st as int, j + 1, b as int) =~= whole);
        if j + 1 < order.len() {
            let ghost y = inl@[order@[j + 1] as int];
            assert(order@[j as int] != order@[j + 1]);
            assert(key_le(x, y));
            assert(disjoint(x, y));
        }
        ptr = b;
        j = j + 1;
    }
    if ptr < e - st {
        let t = source.substring_char(st + ptr, e);
        assert(t@ =~= line.subrange(ptr as int, line.len() as int));
        push_content(&mut r, DisplayContentElement::Text(t));
        assert(content_view(r@) =~= whole);
    } else {
        assert(content_view(r@) =~= whole);
    }
    r
}

/// The position that a slice's origin header shows: its first line number,
/// and no column.
pub fn get_header_pos(slice: &Slice) -> (r: (Option<usize>, Option<usize>))
    ensures
        r == (slice.line_start, None::<usize>),
{
    let line = slice.line_start;
    (line, None)
}

fn blank<'d>() -> (l: DisplayLine<'d>)
    ensures
        l@ == blank_line(),
{
    let l = DisplayLine::Source { lineno: None, inline_marks: Vec::new(), line: DisplaySourceLine::Empty };
    assert(l@ =~= blank_line());
    l
}

impl<'d> DisplayList<'d> {
    /// Lays out one slice that is known to be well formed.
    pub fn layout_slice(slice: &Slice<'d>) -> (r: DisplayList<'d>)
        requires
            slice_valid(*slice),
            slice_fits(*slice),
        ensures
            lines_view(r.body@) == slice_layout(*slice),
    {
        let mut body: Vec<DisplayLine<'d>> = Vec::new();
        assert(lines_view(body@) =~= seq![]);
        if let Some(path) = slice.origin {
            push_line(&mut body, DisplayLine::Raw(DisplayRawLine::Origin { path, pos: get_header_pos(slice) }));
        }
        assert(lines_view(body@) =~= origin_lines(*slice));
        push_line(&mut body, blank());
        let ghost head = lines_view(body@);
        let ghost src = slice.source@;
        let chars = chars_of(slice.source);
        let n = chars.len();
        let mut pos: usize = 0;
        let mut k: usize = 0;
        let ghost mut done: Seq<(int, int)> = seq![];
        let ghost inl = slice.inline_annotations@;
        let n_inl = slice.inline_annotations.len();
        while pos < n
            invariant
                chars@ == src,
                src == slice.source@,
                inl == slice.inline_annotations@,
                inl.len() == n_inl,
                n == src.len(),
                slice_valid(*slice),
                slice_fits(*slice),
                pos <= n + 1,
                k <= pos,
                done.len() == k,
                lines_of(src) == done + lines_scan(src, pos as int, pos as int),
                lines_view(body@) == head + blocks(*slice, k as int),
            decreases n + 1 - pos,
        {
            let e = line_end(&chars, pos);
            let en = e + 1;
            proof {
                assert(lines_of(src) =~= done.push((pos as int, e as int)) + lines_scan(src, e + 1, e + 1));
                lemma_line_order(inl, pos as int, en as int, inl.len() as int);
            }
            let lineno = match slice.line_start {
                Some(first) => Some(first + k),
                None => None,
            };
            let marks = marks_for(&slice.annotations, pos, en);
            let order = order_for(&slice.inline_annotations, pos, en);
            let frags = content_for(slice.source, &slice.inline_annotations, &order, pos, e);
            let l = DisplayLine::Source { lineno, inline_marks: marks, line: DisplaySourceLine::Content(frags) };
            push_line(&mut body, l);
            push_underlines(&mut body, &slice.annotations, pos, en);
            proof {
                assert(lines_of(src)[k as int] == (pos as int, e as int));
                assert(lineno == lineno_of(slice.line_start, k as int));
                assert(seq![l@] + line_underlines(slice.annotations@, pos as int, en as int) =~= line_block(*slice, k as int));
                assert(lines_view(body@) =~= head + blocks(*slice, k + 1));
                done = done.push((pos as int, e as int));
            }
            pos = en;
            k = k + 1;
        }
        proof {
            assert(lines_scan(src, pos as int, pos as int) =~= seq![]);
            assert(lines_of(src) =~= done);
        }
        push_line(&mut body, blank());
        assert(lines_view(body@) =~= slice_layout(*slice));
        DisplayList { body }
    }
}

/// The outcome of checking a slice: a malformed range is reported before
/// overlapping inline annotations.
pub open spec fn slice_check(s: Slice) -> Result<(), LayoutError> {
    if !ranges_ok(s) {
        Err(LayoutError::MalformedRange)
    } else if !inline_disjoint(s.inline_annotations@) {
        Err(LayoutError::OverlappingInlineAnnotations)
    } else {
        Ok(())
    }
}

/// The outcome of checking the first `k` slices: the error of the first
/// one that fails.
pub open spec fn slices_check(slices: Seq<Slice>, k: int) -> Result<(), LayoutError>
    decreases k,
{
    if k <= 0 {
        Ok(())
    } else if slices_check(slices, k - 1) is Err {
        slices_check(slices, k - 1)
    } else {
        slice_check(slices[k - 1])
    }
}

/// The display lines of the first `k` slices, one after the other.
pub open spec fn slices_layout(slices: Seq<Slice>, k: int) -> Seq<LineModel>
    decreases k,
{
    if k <= 0 {
        seq![]
    } else {
        slices_layout(slices, k - 1) + slice_layout(slices[k - 1])
    }
}

/// The title line of a snippet, if it has a title.
pub open spec fn title_lines(s: Snippet) -> Seq<LineModel> {
    match s.title {
        Some(t) => seq![LineModel::Title(
            AnnotationModel {
                annotation_type: t.annotation_type,
                id: opt_str_view(t.id),
                label: match t.label {
                    Some(l) => l@,
                    None => seq![],
                },
            },
            false,
            false,
        )],
        None => seq![],
    }
}

/// The display lines of a snippet: its title line, then each slice's lines.
pub open spec fn snippet_layout(s: Snippet) -> Seq<LineModel> {
    title_lines(s) + slices_layout(s.slices@, s.slices@.len() as int)
}

/// Checks that a slice can be laid out.
pub fn validate_slice(slice: &Slice) -> (r: Result<(), LayoutError>)
    requires
        slice.source@.len() < usize::MAX,
    ensures
        r == slice_check(*slice),
{
    let chars = chars_of(slice.source);
    let n = chars.len();
    let covered: usize = if n == 0 || chars[n - 1] == '\n' { n } else { n + 1 };
    assert(covered == covered_len(slice.source@));
    let mut i: usize = 0;
    while i < slice.annotations.len()
        invariant
            chars@ == slice.source@,
            covered == covered_len(slice.source@),
            i <= slice.annotations@.len(),
            forall|t: int| 0 <= t < i ==> ranged_ok(#[trigger] slice.annotations@[t], slice.source@),
        decreases slice.annotations@.len() - i,
    {
        let x = &slice.annotations[i];
        if !(x.range.0 <= x.range.1 && x.range.1 < covered) {
            assert(!ranged_ok(slice.annotations@[i as int], slice.source@));
            assert(!ranges_ok(*slice));
            return Err(LayoutError::MalformedRange);
        }
        i = i + 1;
    }
    let mut i: usize = 0;
    while i < slice.inline_annotations.len()
        invariant
            chars@ == slice.source@,
            n == chars@.len(),
            covered == covered_len(slice.source@),
            i <= slice.inline_annotations@.len(),
            forall|t: int| 0 <= t < slice.annotations@.len() ==> ranged_ok(#[trigger] slice.annotations@[t], slice.source@),
            forall|t: int| 0 <= t < i ==> inline_ok(#[trigger] slice.inline_annotations@[t], slice.source@),
        decreases slice.inline_annotations@.len() - i,
    {
        let x = slice.inline_annotations[i];
        if !(x.range.0 <= x.range.1 && x.range.1 < covered) {
            assert(!inline_ok(slice.inline_annotations@[i as int], slice.source@));
            assert(!ranges_ok(*slice));
            return Err(LayoutError::MalformedRange);
        }
        let mut k: usize = x.range.0;
        while k < x.range.1
            invariant
                chars@ == slice.source@,
                n == chars@.len(),
                covered == covered_len(slice.source@),
                i < slice.inline_annotations@.len(),
                x == slice.inline_annotations@[i as int],
                forall|t: int| 0 <= t < slice.annotations@.len() ==> ranged_ok(#[trigger] slice.annotations@[t], slice.source@),
                forall|t: int| 0 <= t < i ==> inline_ok(#[trigger] slice.inline_annotations@[t], slice.source@),
                x.range.0 <= k <= x.range.1 <= n,
                forall|q: int| x.range.0 <= q < k ==> slice.source@[q] != '\n',
            decreases x.range.1 - k,
        {
            if chars[k] == '\n' {
                assert(!inline_ok(slice.inline_annotations@[i as int], slice.source@));
            assert(!ranges_ok(*slice));
                return Err(LayoutError::MalformedRange);
            }
            k = k + 1;
        }
        i = i + 1;
    }
    let mut i: usize = 0;
    while i < slice.inline_annotations.len()
        invariant
            ranges_ok(*slice),
            i <= slice.inline_annotations@.len(),
            forall|p: int, q: int|
                0 <= p < i && 0 <= q < slice.inline_annotations@.len() && p != q ==> disjoint(#[trigger] slice.inline_annotations@[p], #[trigger] slice.inline_annotations@[q]),
        decreases slice.inline_annotations@.len() - i,
    {
        let mut j: usize = 0;
        while j < slice.inline_annotations.len()
            invariant
                ranges_ok(*slice),
                i < slice.inline_annotations@.len(),
                j <= slice.inline_annotations@.len(),
                forall|p: int, q: int|
                    0 <= p < i && 0 <= q < slice.inline_annotations@.len() && p != q ==> disjoint(#[trigger] slice.inline_annotations@[p], #[trigger] slice.inline_annotations@[q]),
                forall|q: int| 0 <= q < j && i != q ==> disjoint(slice.inline_annotations@[i as int], #[trigger] slice.inline_annotations@[q]),
            decreases slice.inline_annotations@.len() - j,
        {
            if i != j && !(slice.inline_annotations[i].range.1 <= slice.inline_annotations[j].range.0 || slice.inline_annotations[j].range.1 <= slice.inline_annotations[i].range.0) {
                assert(!disjoint(slice.inline_annotations@[i as int], slice.inline_annotations@[j as int]));
                assert(!inline_disjoint(slice.inline_annotations@));
                return Err(LayoutError::OverlappingInlineAnnotations);
            }
            j = j + 1;
        }
        i = i + 1;
    }
    Ok(())
}

impl<'d> DisplayList<'d> {
    /// Checks a slice and lays it out.
    pub fn from_slice(slice: &Slice<'d>) -> (r: Result<DisplayList<'d>, LayoutError>)
        requires
            slice_fits(*slice),
        ensures
            r is Ok <==> slice_check(*slice) is Ok,
            r is Ok ==> lines_view(r->Ok_0.body@) == slice_layout(*slice),
            r is Err ==> slice_check(*slice) == Err::<(), LayoutError>(r->Err_0),
    {
        match validate_slice(slice) {
            Ok(()) => Ok(DisplayList::layout_slice(slice)),
            Err(e) => Err(e),
        }
    }

    /// Checks every slice of a snippet and lays the snippet out: the title
    /// line, if any, then the lines of each slice in order.
    pub fn from_snippet(snippet: &Snippet<'d>) -> (r: Result<DisplayList<'d>, LayoutError>)
        requires
            forall|i: int| 0 <= i < snippet.slices@.len() ==> slice_fits(#[trigger] snippet.slices@[i]),
        ensures
            r is Ok <==> slices_check(snippet.slices@, snippet.slices@.len() as int) is Ok,
            r is Ok ==> lines_view(r->Ok_0.body@) == snippet_layout(*snippet),
            r is Err ==> slices_check(snippet.slices@, snippet.slices@.len() as int) == Err::<(), LayoutError>(r->Err_0),
    {
        let mut body: Vec<DisplayLine<'d>> = Vec::new();
        assert(lines_view(body@) =~= seq![]);
        if let Some(annotation) = &snippet.title {
            let label: &'d str = match annotation.label {
                Some(l) => l,
                None => "",
            };
            proof {
                reveal_strlit("");
            }
            let l = DisplayLine::Raw(DisplayRawLine::Annotation {
                annotation: Annotation { annotation_type: annotation.annotation_type, id: annotation.id, label },
                source_aligned: false,
                continuation: false,
            });
            assert(l@->Title_0.label =~= title_lines(*snippet)[0]->Title_0.label);
            push_line(&mut body, l);
        }
        assert(lines_view(body@) =~= title_lines(*snippet));
        let slices = &snippet.slices;
        let mut i: usize = 0;
        while i < slices.len()
            invariant
                slices@ == snippet.slices@,
                forall|t: int| 0 <= t < slices@.len() ==> slice_fits(#[trigger] slices@[t]),
                i <= slices@.len(),
                slices_check(slices@, i as int) is Ok,
                lines_view(body@) == title_lines(*snippet) + slices_layout(slices@, i as int),
            decreases slices@.len() - i,
        {
            match DisplayList::from_slice(&slices[i]) {
                Ok(d) => {
                    let mut more = d.body;
                    append_lines(&mut body, &mut more);
                    assert(lines_view(body@) =~= title_lines(*snippet) + slices_layout(slices@, i + 1));
                },
                Err(e) => {
                    proof {
                        lemma_check_stays_err(slices@, i + 1, slices@.len() as int);
                    }
                    return Err(e);
                },
            }
            i = i + 1;
        }
        Ok(DisplayList { body })
    }
}

proof fn lemma_check_stays_err(slices: Seq<Slice>, i: int, k: int)
    requires
        0 <= i <= k,
        slices_check(slices, i) is Err,
    ensures
        slices_check(slices, k) == slices_check(slices, i),
    decreases k - i,
{
    if i < k {
        lemma_check_stays_err(slices, i, k - 1);
    }
}

} // verus!
