//! Physical lines of a source text, as character offsets.

use vstd::prelude::*;
use vstd::std_specs::iter::IteratorSpec;

verus! {

broadcast use vstd::string::group_string_axioms;

/// The lines of `s` found by scanning from `i`, the current line having
/// started at `start`: each is `(first, end)` where `end` is the offset of
/// the line's `'\n'` terminator, or `s.len()` for a last line without one.
/// A terminator at the very end of `s` opens no further line.
pub open spec fn lines_scan(s: Seq<char>, start: int, i: int) -> Seq<(int, int)>
    decreases s.len() - i,
{
    if i >= s.len() {
        if start < s.len() {
            seq![(start, s.len() as int)]
        } else {
            seq![]
        }
    } else if s[i] == '\n' {
        seq![(start, i)] + lines_scan(s, i + 1, i + 1)
    } else {
        lines_scan(s, start, i + 1)
    }
}

/// The physical lines of `s`.
pub open spec fn lines_of(s: Seq<char>) -> Seq<(int, int)> {
    lines_scan(s, 0, 0)
}

/// One past the last offset that a line's range covers: each line covers
/// its characters and its terminator, and a last line without terminator
/// still covers the offset just past its end.
pub open spec fn covered_len(s: Seq<char>) -> int {
    if s.len() == 0 || s.last() == '\n' {
        s.len() as int
    } else {
        s.len() + 1int
    }
}

/// The characters of `s`, in order.
pub fn chars_of(s: &str) -> (v: Vec<char>)
    ensures
        v@ == s@,
{
    broadcast use vstd::string::next_postcondition;
    let mut it = s.chars();
    let mut v: Vec<char> = Vec::new();
    loop
        invariant
            it.obeys_prophetic_iter_laws(),
            it.decrease() is Some,
            v@ + it.remaining() == s@,
        decreases it.decrease()->0,
    {
        match it.next() {
            Some(c) => {
                assert(v@.push(c) + it.remaining() =~= s@);
                v.push(c);
            },
            None => {
                assert(v@ =~= s@);
                return v;
            },
        }
    }
}

/// The end of the line that starts at `pos`: the offset of the next
/// `'\n'`, or the length of `s` if none follows.
pub fn line_end(s: &Vec<char>, pos: usize) -> (e: usize)
    requires
        pos <= s@.len(),
    ensures
        pos <= e <= s@.len(),
        e < s@.len() ==> s@[e as int] == '\n',
        forall|k: int| pos <= k < e ==> s@[k] != '\n',
        lines_scan(s@, pos as int, pos as int) == seq![(pos as int, e as int)] + lines_scan(
            s@,
            e + 1,
            e + 1,
        ) || pos == s@.len(),
{
    let mut e: usize = pos;
    while e < s.len() && s[e] != '\n'
        invariant
            pos <= e <= s@.len(),
            forall|k: int| pos <= k < e ==> s@[k] != '\n',
            lines_scan(s@, pos as int, pos as int) == lines_scan(s@, pos as int, e as int),
        decreases s@.len() - e,
    {
        e = e + 1;
    }
    if pos < s.len() {
        if e < s.len() {
            assert(lines_scan(s@, pos as int, e as int) == seq![(pos as int, e as int)]
                + lines_scan(s@, e + 1, e + 1));
        } else {
            assert(lines_scan(s@, e + 1, e + 1) =~= seq![]);
            assert(lines_scan(s@, pos as int, e as int) =~= seq![(pos as int, e as int)]
                + lines_scan(s@, e + 1, e + 1));
        }
    }
    e
}

/// A line of `s` starting at `st` is preceded by a terminator, unless it is
/// the first.
pub open spec fn starts_line(s: Seq<char>, st: int) -> bool {
    st == 0 || s[st - 1] == '\n'
}

/// Each line lies within `s`, holds no terminator, ends at a terminator or
/// at the end of `s`, and starts the text or follows a terminator.
pub proof fn lemma_lines_scan_shape(s: Seq<char>, start: int, i: int)
    requires
        0 <= start <= i <= s.len(),
        starts_line(s, start),
        forall|q: int| start <= q < i ==> s[q] != '\n',
    ensures
        forall|k: int| 0 <= k < lines_scan(s, start, i).len() ==> {
            let (st, e) = #[trigger] lines_scan(s, start, i)[k];
            &&& start <= st <= e <= s.len()
            &&& starts_line(s, st)
            &&& (e < s.len() ==> s[e] == '\n')
            &&& (e == s.len() ==> st < e)
            &&& forall|q: int| st <= q < e ==> s[q] != '\n'
        },
    decreases s.len() - i,
{
    if i < s.len() {
        if s[i] == '\n' {
            lemma_lines_scan_shape(s, i + 1, i + 1);
            let rest = lines_scan(s, i + 1, i + 1);
            assert forall|k: int| 0 <= k < lines_scan(s, start, i).len() implies {
                let (st, e) = #[trigger] lines_scan(s, start, i)[k];
                &&& start <= st <= e <= s.len()
                &&& starts_line(s, st)
                &&& (e < s.len() ==> s[e] == '\n')
                &&& (e == s.len() ==> st < e)
                &&& forall|q: int| st <= q < e ==> s[q] != '\n'
            } by {
                if k > 0 {
                    assert(lines_scan(s, start, i)[k] == rest[k - 1]);
                }
            }
        } else {
            lemma_lines_scan_shape(s, start, i + 1);
            assert(lines_scan(s, start, i) == lines_scan(s, start, i + 1));
        }
    } else if start < s.len() {
        assert(lines_scan(s, start, i) == seq![(start, s.len() as int)]);
        assert(lines_scan(s, start, i)[0] == (start, s.len() as int));
    } else {
        assert(lines_scan(s, start, i).len() == 0);
    }
}

/// Every offset below `covered_len(s)` lies in the range of some line:
/// between its first character and its terminator, both included.
pub proof fn lemma_lines_scan_cover(s: Seq<char>, start: int, i: int, x: int)
    requires
        0 <= start <= i <= s.len(),
        starts_line(s, start),
        forall|q: int| start <= q < i ==> s[q] != '\n',
        start <= x < covered_len(s),
    ensures
        exists|k: int| 0 <= k < lines_scan(s, start, i).len() && (#[trigger] lines_scan(s, start, i)[k]).0 <= x
            <= lines_scan(s, start, i)[k].1,
    decreases s.len() - i,
{
    let r = lines_scan(s, start, i);
    if i >= s.len() {
        assert(r[0].0 <= x <= r[0].1);
    } else if s[i] == '\n' {
        if x <= i {
            assert(r[0].0 <= x <= r[0].1);
        } else {
            lemma_lines_scan_cover(s, i + 1, i + 1, x);
            let rest = lines_scan(s, i + 1, i + 1);
            let k = choose|k: int| 0 <= k < rest.len() && (#[trigger] rest[k]).0 <= x <= rest[k].1;
            assert(r[k + 1] == rest[k]);
        }
    } else {
        lemma_lines_scan_cover(s, start, i + 1, x);
    }
}

} // verus!
