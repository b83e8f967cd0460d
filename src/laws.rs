//! What holds of every layout.

use vstd::prelude::*;
use crate::line::{ContentModel, LineModel, SourceLineModel};
use crate::list::{
    blank_line, blocks, disjoint, frags_from, in_range, inline_disjoint, inline_on_line, inline_ok,
    key_le, lemma_line_order, line_block, line_marks, line_order, line_underlines, order_ok,
    origin_lines, ranged_ok, ranges_ok, slice_layout, slice_valid, underline_of,
};
use crate::snippet::{InlineAnnotation, Slice, SourceAnnotation};
use crate::text::{covered_len, lemma_lines_scan_cover, lemma_lines_scan_shape, lines_of, lines_scan};

verus! {

/// The characters of a content element.
pub open spec fn element_text(c: ContentModel) -> Seq<char> {
    match c {
        ContentModel::Text(t) => t,
        ContentModel::AnnotatedText(t, _) => t,
    }
}

/// The characters of content elements, one after the other.
pub open spec fn content_text(c: Seq<ContentModel>) -> Seq<char>
    decreases c.len(),
{
    if c.len() == 0 {
        seq![]
    } else {
        content_text(c.drop_last()) + element_text(c.last())
    }
}

proof fn lemma_content_text_one(c: ContentModel)
    ensures
        content_text(seq![c]) == element_text(c),
{
    assert(seq![c].drop_last() =~= Seq::<ContentModel>::empty());
    assert(content_text(Seq::<ContentModel>::empty()) == Seq::<char>::empty());
    assert(Seq::<char>::empty() + element_text(c) =~= element_text(c));
}

proof fn lemma_content_text_concat(x: Seq<ContentModel>, y: Seq<ContentModel>)
    ensures
        content_text(x + y) == content_text(x) + content_text(y),
    decreases y.len(),
{
    if y.len() == 0 {
        assert(x + y =~= x);
        assert(content_text(x) + content_text(y) =~= content_text(x));
    } else {
        lemma_content_text_concat(x, y.drop_last());
        assert((x + y).drop_last() =~= x + y.drop_last());
        assert(content_text(x) + content_text(y) =~= content_text(x) + content_text(y.drop_last())
            + element_text(y.last()));
    }
}

proof fn lemma_frags_text(line: Seq<char>, anns: Seq<InlineAnnotation>, order: Seq<usize>, st: int, j: int, ptr: int)
    requires
        order_ok(anns, st, st + line.len() + 1, anns.len() as int, order),
        forall|i: int| 0 <= i < anns.len() ==> (#[trigger] anns[i]).range.0 <= anns[i].range.1,
        inline_disjoint(anns),
        0 <= j <= order.len(),
        0 <= ptr <= line.len(),
        j < order.len() ==> ptr <= anns[order[j] as int].range.0 - st,
    ensures
        content_text(frags_from(line, anns, order, st, j, ptr)) == line.subrange(ptr, line.len() as int),
    decreases order.len() - j,
{
    if j == order.len() {
        if ptr < line.len() {
            lemma_content_text_one(ContentModel::Text(line.subrange(ptr, line.len() as int)));
        } else {
            assert(line.subrange(ptr, line.len() as int) =~= seq![]);
        }
    } else {
        let x = anns[order[j] as int];
        let a = x.range.0 - st;
        let b = x.range.1 - st;
        let gap = if ptr < a {
            seq![ContentModel::Text(line.subrange(ptr, a))]
        } else {
            seq![]
        };
        let mid = seq![ContentModel::AnnotatedText(line.subrange(a, b), x.annotation_type)];
        let rest = frags_from(line, anns, order, st, j + 1, b);
        if j + 1 < order.len() {
            let y = anns[order[j + 1] as int];
            assert(order[j] != order[j + 1]);
            assert(key_le(x, y));
            assert(disjoint(x, y));
        }
        lemma_frags_text(line, anns, order, st, j + 1, b);
        lemma_content_text_concat(gap + mid, rest);
        lemma_content_text_concat(gap, mid);
        lemma_content_text_one(ContentModel::AnnotatedText(line.subrange(a, b), x.annotation_type));
        if ptr < a {
            lemma_content_text_one(ContentModel::Text(line.subrange(ptr, a)));
        } else {
            assert(content_text(gap) =~= seq![]);
        }
        assert(frags_from(line, anns, order, st, j, ptr) == gap + mid + rest);
        assert(line.subrange(ptr, line.len() as int) =~= content_text(gap) + line.subrange(a, b) + line.subrange(b, line.len() as int));
    }
}

/// The content elements of every line of a well-formed slice, read one after
/// the other without their highlighting, give back that line's text.
pub proof fn lemma_content_rebuilds_line(s: Slice, k: int)
    requires
        slice_valid(s),
        s.inline_annotations@.len() <= usize::MAX,
        0 <= k < lines_of(s.source@).len(),
    ensures
        line_block(s, k)[0] matches LineModel::Source(_, _, SourceLineModel::Content(c))
            && content_text(c) == s.source@.subrange(lines_of(s.source@)[k].0, lines_of(s.source@)[k].1),
{
    let src = s.source@;
    let inl = s.inline_annotations@;
    lemma_lines_scan_shape(src, 0, 0);
    let st = lines_of(src)[k].0;
    let e = lines_of(src)[k].1;
    let line = src.subrange(st, e);
    lemma_line_order(inl, st, e + 1, inl.len() as int);
    let order = line_order(inl, st, e + 1, inl.len() as int);
    if order.len() == 0 {
        lemma_content_text_one(ContentModel::Text(line));
    } else {
        assert forall|i: int| 0 <= i < inl.len() implies (#[trigger] inl[i]).range.0 <= inl[i].range.1 by {
            assert(inline_ok(inl[i], src));
        }
        lemma_frags_text(line, inl, order, st, 0, 0);
        assert(line.subrange(0, line.len() as int) =~= line);
    }
}

/// Whether a display line is the content line of a physical line.
pub open spec fn is_content_record(l: LineModel) -> bool {
    l matches LineModel::Source(_, _, SourceLineModel::Content(_))
}

/// The number of content lines among `ls`.
pub open spec fn content_records(ls: Seq<LineModel>) -> nat
    decreases ls.len(),
{
    if ls.len() == 0 {
        0
    } else {
        content_records(ls.drop_last()) + if is_content_record(ls.last()) { 1nat } else { 0nat }
    }
}

proof fn lemma_content_records_concat(x: Seq<LineModel>, y: Seq<LineModel>)
    ensures
        content_records(x + y) == content_records(x) + content_records(y),
    decreases y.len(),
{
    if y.len() == 0 {
        assert(x + y =~= x);
    } else {
        lemma_content_records_concat(x, y.drop_last());
        assert((x + y).drop_last() =~= x + y.drop_last());
    }
}

proof fn lemma_content_records_one(l: LineModel)
    ensures
        content_records(seq![l]) == if is_content_record(l) { 1nat } else { 0nat },
{
    assert(seq![l].drop_last() =~= Seq::<LineModel>::empty());
    assert(content_records(Seq::<LineModel>::empty()) == 0);
}

proof fn lemma_underlines_hold_no_content(anns: Seq<SourceAnnotation>, st: int, en: int)
    ensures
        content_records(line_underlines(anns, st, en)) == 0,
    decreases anns.len(),
{
    if anns.len() > 0 {
        lemma_underlines_hold_no_content(anns.drop_last(), st, en);
        let prev = line_underlines(anns.drop_last(), st, en);
        let u = underline_of(anns.last(), st);
        assert(prev.push(u).drop_last() =~= prev);
    }
}

proof fn lemma_blocks_content_records(s: Slice, k: int)
    requires
        0 <= k,
    ensures
        content_records(blocks(s, k)) == k,
    decreases k,
{
    if k > 0 {
        lemma_blocks_content_records(s, k - 1);
        let b = line_block(s, k - 1);
        let src = s.source@;
        let st = lines_of(src)[k - 1].0;
        let en = lines_of(src)[k - 1].1 + 1;
        lemma_content_records_concat(blocks(s, k - 1), b);
        lemma_content_records_concat(seq![b[0]], line_underlines(s.annotations@, st, en));
        assert(b == seq![b[0]] + line_underlines(s.annotations@, st, en));
        lemma_content_records_one(b[0]);
        lemma_underlines_hold_no_content(s.annotations@, st, en);
    }
}

/// A slice's layout holds exactly one content line per physical line of
/// its source: underline lines, the origin header and the two blank lines
/// are not content lines.
pub proof fn lemma_one_content_line_per_source_line(s: Slice)
    ensures
        content_records(slice_layout(s)) == lines_of(s.source@).len(),
{
    let n = lines_of(s.source@).len() as int;
    let head = origin_lines(s) + seq![blank_line()];
    lemma_blocks_content_records(s, n);
    lemma_content_records_concat(origin_lines(s), seq![blank_line()]);
    lemma_content_records_concat(head, blocks(s, n));
    lemma_content_records_concat(head + blocks(s, n), seq![blank_line()]);
    lemma_content_records_one(blank_line());
    if s.origin is Some {
        lemma_content_records_one(origin_lines(s)[0]);
        assert(origin_lines(s) == seq![origin_lines(s)[0]]);
    } else {
        assert(origin_lines(s) =~= Seq::<LineModel>::empty());
    }
}

/// The line that holds offset `x`, for `x` below `covered_len(src)`.
proof fn lemma_offset_on_some_line(src: Seq<char>, x: int) -> (k: int)
    requires
        0 <= x < covered_len(src),
    ensures
        0 <= k < lines_of(src).len(),
        lines_of(src)[k].0 <= x <= lines_of(src)[k].1,
{
    lemma_lines_scan_cover(src, 0, 0, x);
    choose|k: int| 0 <= k < lines_scan(src, 0, 0).len() && (#[trigger] lines_scan(src, 0, 0)[k]).0 <= x <= lines_scan(src, 0, 0)[k].1
}

/// Some line of `src` has the end of `x` in its range, and so resolves it.
pub open spec fn resolved_on_some_line(x: SourceAnnotation, src: Seq<char>) -> bool {
    exists|k: int| 0 <= k < lines_of(src).len() && in_range(x.range.1 as int, #[trigger] lines_of(src)[k].0, lines_of(src)[k].1 + 1)
}

/// Some line of `src` holds all of `x`.
pub open spec fn placed_on_some_line(x: InlineAnnotation, src: Seq<char>) -> bool {
    exists|k: int| 0 <= k < lines_of(src).len() && inline_on_line(x, #[trigger] lines_of(src)[k].0, lines_of(src)[k].1 + 1)
}

/// In a slice whose ranges are well formed, every ranged annotation has its
/// end in the range of some line, the line that resolves it and shows its
/// underline; and every inline annotation lies on some line.
pub proof fn lemma_every_annotation_resolved(s: Slice)
    requires
        ranges_ok(s),
    ensures
        forall|i: int| 0 <= i < s.annotations@.len() ==> resolved_on_some_line(#[trigger] s.annotations@[i], s.source@),
        forall|i: int| 0 <= i < s.inline_annotations@.len() ==> placed_on_some_line(#[trigger] s.inline_annotations@[i], s.source@),
{
    let src = s.source@;
    lemma_lines_scan_shape(src, 0, 0);
    assert forall|i: int| 0 <= i < s.annotations@.len() implies resolved_on_some_line(#[trigger] s.annotations@[i], src) by {
        assert(ranged_ok(s.annotations@[i], src));
        let k = lemma_offset_on_some_line(src, s.annotations@[i].range.1 as int);
        assert(in_range(s.annotations@[i].range.1 as int, lines_of(src)[k].0, lines_of(src)[k].1 + 1));
    }
    assert forall|i: int| 0 <= i < s.inline_annotations@.len() implies placed_on_some_line(#[trigger] s.inline_annotations@[i], src) by {
        let x = s.inline_annotations@[i];
        assert(inline_ok(x, src));
        let k = lemma_offset_on_some_line(src, x.range.1 as int);
        let st = lines_of(src)[k].0;
        if x.range.0 < st {
            assert(src[st - 1] == '\n');
        }
        assert(inline_on_line(x, lines_of(src)[k].0, lines_of(src)[k].1 + 1));
    }
}

/// Conversely, a ranged annotation whose start is not after its end is well
/// formed exactly when some line resolves it; so a slice with one that no
/// line resolves is refused as malformed.
pub proof fn lemma_well_formed_iff_resolved(x: SourceAnnotation, src: Seq<char>)
    requires
        x.range.0 <= x.range.1,
    ensures
        ranged_ok(x, src) <==> resolved_on_some_line(x, src),
{
    lemma_lines_scan_shape(src, 0, 0);
    if ranged_ok(x, src) {
        let k = lemma_offset_on_some_line(src, x.range.1 as int);
        assert(in_range(x.range.1 as int, lines_of(src)[k].0, lines_of(src)[k].1 + 1));
    }
    if resolved_on_some_line(x, src) {
        let k = choose|k: int| 0 <= k < lines_of(src).len() && in_range(x.range.1 as int, #[trigger] lines_of(src)[k].0, lines_of(src)[k].1 + 1);
        let e = lines_of(src)[k].1;
        assert(lines_scan(src, 0, 0)[k] == lines_of(src)[k]);
        if e == src.len() {
            assert(src[e - 1] != '\n');
        }
    }
}

/// The connectors of the first `i` annotations come first on a line, in
/// the same order: connectors follow the order in which annotations are
/// declared.
pub proof fn lemma_marks_keep_declaration_order(anns: Seq<SourceAnnotation>, i: int, st: int, en: int)
    requires
        0 <= i <= anns.len(),
    ensures
        line_marks(anns.subrange(0, i), st, en).len() <= line_marks(anns, st, en).len(),
        line_marks(anns, st, en).subrange(0, line_marks(anns.subrange(0, i), st, en).len() as int)
            == line_marks(anns.subrange(0, i), st, en),
    decreases anns.len(),
{
    if i == anns.len() {
        assert(anns.subrange(0, i) =~= anns);
        assert(line_marks(anns, st, en).subrange(0, line_marks(anns, st, en).len() as int) =~= line_marks(anns, st, en));
    } else {
        let d = anns.drop_last();
        lemma_marks_keep_declaration_order(d, i, st, en);
        assert(d.subrange(0, i) =~= anns.subrange(0, i));
        let p = line_marks(anns.subrange(0, i), st, en);
        assert(line_marks(anns, st, en).subrange(0, p.len() as int) =~= line_marks(d, st, en).subrange(0, p.len() as int));
    }
}

proof fn lemma_underlines_prefix(anns: Seq<SourceAnnotation>, i: int, st: int, en: int)
    requires
        0 <= i <= anns.len(),
    ensures
        line_underlines(anns.subrange(0, i), st, en).len() <= line_underlines(anns, st, en).len(),
        line_underlines(anns, st, en).subrange(0, line_underlines(anns.subrange(0, i), st, en).len() as int)
            == line_underlines(anns.subrange(0, i), st, en),
    decreases anns.len(),
{
    if i == anns.len() {
        assert(anns.subrange(0, i) =~= anns);
        assert(line_underlines(anns, st, en).subrange(0, line_underlines(anns, st, en).len() as int) =~= line_underlines(anns, st, en));
    } else {
        let d = anns.drop_last();
        lemma_underlines_prefix(d, i, st, en);
        assert(d.subrange(0, i) =~= anns.subrange(0, i));
        let p = line_underlines(anns.subrange(0, i), st, en);
        assert(line_underlines(anns, st, en).subrange(0, p.len() as int) =~= line_underlines(d, st, en).subrange(0, p.len() as int));
    }
}

proof fn lemma_no_underlines(anns: Seq<SourceAnnotation>, st: int, en: int)
    requires
        forall|t: int| 0 <= t < anns.len() ==> !in_range((#[trigger] anns[t]).range.1 as int, st, en),
    ensures
        line_underlines(anns, st, en) == Seq::<LineModel>::empty(),
    decreases anns.len(),
{
    if anns.len() > 0 {
        lemma_no_underlines(anns.drop_last(), st, en);
    }
}

/// An annotation that lies wholly on line `k`, and is the first in
/// declaration order to be resolved there, has its underline line right
/// after that line's content line, with its range taken relative to the
/// start of the line.
pub proof fn lemma_underline_follows_its_line(s: Slice, k: int, i: int)
    requires
        0 <= k < lines_of(s.source@).len(),
        0 <= i < s.annotations@.len(),
        contained_in_line(s.annotations@[i], lines_of(s.source@)[k].0, lines_of(s.source@)[k].1 + 1),
        forall|t: int| 0 <= t < i ==> !in_range(
            (#[trigger] s.annotations@[t]).range.1 as int,
            lines_of(s.source@)[k].0,
            lines_of(s.source@)[k].1 + 1,
        ),
    ensures
        line_block(s, k).len() >= 2,
        line_block(s, k)[1] == underline_of(s.annotations@[i], lines_of(s.source@)[k].0),
        line_block(s, k)[1] matches LineModel::Source(None, _, SourceLineModel::Annotation(_, r))
            && r.0 == s.annotations@[i].range.0 - lines_of(s.source@)[k].0
            && r.1 == s.annotations@[i].range.1 - lines_of(s.source@)[k].0,
{
    let anns = s.annotations@;
    lemma_lines_scan_shape(s.source@, 0, 0);
    let st = lines_of(s.source@)[k].0;
    let en = lines_of(s.source@)[k].1 + 1;
    lemma_underlines_prefix(anns, i + 1, st, en);
    let sub = anns.subrange(0, i + 1);
    assert(sub.drop_last() =~= anns.subrange(0, i));
    lemma_no_underlines(anns.subrange(0, i), st, en);
    assert(line_underlines(sub, st, en) =~= seq![underline_of(anns[i], st)]);
    let u = line_underlines(anns, st, en);
    assert(u[0] == line_underlines(anns, st, en).subrange(0, 1)[0]);
    let b = line_block(s, k);
    assert(b[1] == u[0]);
}

/// The ranged annotation `x` lies wholly in the line range `st .. en`.
pub open spec fn contained_in_line(x: SourceAnnotation, st: int, en: int) -> bool {
    in_range(x.range.0 as int, st, en) && in_range(x.range.1 as int, st, en)
}

} // verus!
