//! Context extraction: the `-A`/`-B` window around a finding, plus the
//! byte ranges the renderer needs to apply syntax highlighting.

use crate::model;
use crate::model::Finding;
use crate::order;
use crate::text;
use std::ops::Range;
use vstd::prelude::*;
use vstd::string::*;

verus! {

/// What role a context line plays relative to the finding.
#[derive(Debug, Clone, Copy, PartialEq, Eq, Structural)]
pub enum LineKind {
    /// Before the selection.
    Before,
    /// Inside the selected comment range.
    Selected,
    /// After the selection.
    After,
}

/// The mathematical content of a [`ContextLine`].
#[verifier::ext_equal]
pub struct LineView {
    pub line: int,
    pub text: Seq<char>,
    pub kind: LineKind,
    pub start: int,
    pub end: int,
}

/// One line of the context window.
#[derive(Debug, PartialEq, Eq)]
pub struct ContextLine {
    /// 1-based line number in the file.
    pub line: usize,
    /// The line text, without its terminator.
    pub text: String,
    /// Role of the line.
    pub kind: LineKind,
    /// Byte range of the line within the file (excluding the terminator).
    pub byte_range: Range<usize>,
}

impl View for ContextLine {
    type V = LineView;

    open spec fn view(&self) -> LineView {
        LineView {
            line: self.line as int,
            text: self.text@,
            kind: self.kind,
            start: self.byte_range.start as int,
            end: self.byte_range.end as int,
        }
    }
}

impl Clone for ContextLine {
    fn clone(&self) -> (r: Self)
        ensures
            r == *self,
    {
        ContextLine {
            line: self.line,
            text: self.text.clone(),
            kind: self.kind,
            byte_range: self.byte_range.start..self.byte_range.end,
        }
    }
}

/// The context window around one finding.
#[derive(Debug, PartialEq, Eq)]
pub struct Context {
    /// The lines, in file order.
    pub lines: Vec<ContextLine>,
    /// Byte range of the selected comments within the file.
    pub selection: Range<usize>,
}

/// The role of line `n` when the selection covers the lines `first..=last`.
pub open spec fn kind_of(n: int, first: int, last: int) -> LineKind {
    if first <= n <= last {
        LineKind::Selected
    } else if n < first {
        LineKind::Before
    } else {
        LineKind::After
    }
}

/// The byte offset where line `k` (counting from zero) starts.
pub open spec fn line_offset(ls: Seq<text::TextLine>, k: int) -> int {
    text::byte_len(text::join_lines(ls.take(k))) as int
}

/// Line `n` (counting from one) as a context line.
pub open spec fn window_line(ls: Seq<text::TextLine>, n: int, first: int, last: int) -> LineView {
    LineView {
        line: n,
        text: ls[n - 1].text,
        kind: kind_of(n, first, last),
        start: line_offset(ls, n - 1),
        end: line_offset(ls, n - 1) + text::byte_len(ls[n - 1].text),
    }
}

/// The window of `before` and `after` lines around the lines `first..=last`,
/// clamped at the file's edges.
pub open spec fn window(
    ls: Seq<text::TextLine>,
    first: int,
    last: int,
    before: int,
    after: int,
) -> Seq<LineView> {
    let lo = model::larger(first - before, 1);
    let hi = model::smaller(last + after, ls.len() as int);
    if lo > hi {
        Seq::empty()
    } else {
        Seq::new((hi - lo + 1) as nat, |i: int| window_line(ls, lo + i, first, last))
    }
}

/// The first and last line of a finding's selection.
pub open spec fn selected_lines(f: model::FindingView) -> (int, int) {
    (f.run[f.selection.start as int].line, f.run[f.selection.end as int].end_line)
}

/// Extracts the context window for `finding` from `source`.
///
/// `before`/`after` are the numbers of context lines; they clamp at the
/// file's edges. Lines covered by the selection are marked
/// [`LineKind::Selected`].
pub fn extract_context(source: &str, finding: &Finding, before: usize, after: usize) -> (r: Context)
    requires
        finding.selection.start < finding@.run.len(),
        finding.selection.end < finding@.run.len(),
    ensures
        order::views(r.lines@) == window(
            text::lines_of(source@),
            selected_lines(finding@).0,
            selected_lines(finding@).1,
            before as int,
            after as int,
        ),
        (r.selection.start as int, r.selection.end as int) == finding@.selected(),
{
    let first: usize = finding.run.comments[finding.selection.start].line;
    let last: usize = finding.run.comments[finding.selection.end].end_line;
    let cs = text::chars_of(source);
    let bufs = text::split_lines(&cs);
    let ghost ls = text::lines_of(source@);
    assert(text::buf_lines(bufs@).len() == bufs@.len());
    let total: usize = bufs.len();
    let hi: usize = if total == 0 || last >= total || after >= total - last {
        total
    } else {
        last + after
    };
    let start: usize = if first > before {
        first - before - 1
    } else {
        0
    };
    let mut k: usize = start;
    let mut lines: Vec<ContextLine> = Vec::new();
    while k < hi
        invariant
            start <= k,
            k <= hi || (k == start && lines@.len() == 0),
            hi <= total == bufs@.len(),
            total == ls.len(),
            ls == text::lines_of(source@),
            cs@ == source@,
            text::byte_len(cs@) <= usize::MAX,
            text::buf_lines(bufs@) == ls,
            forall|j: int|
                0 <= j < bufs.len() ==> (#[trigger] bufs@[j]).start == text::byte_len(
                    text::join_lines(ls.take(j)),
                ),
            order::views(lines@) == Seq::new(
                (k - start) as nat,
                |i: int| window_line(ls, start + 1 + i, first as int, last as int),
            ),
        decreases hi - k,
    {
        let buf = &bufs[k];
        proof {
            assert(text::buf_lines(bufs@)[k as int] == buf.line());
            lemma_line_bytes(cs@, k as int);
        }
        let number: usize = k + 1;
        let kind = if number >= first && number <= last {
            LineKind::Selected
        } else if number < first {
            LineKind::Before
        } else {
            LineKind::After
        };
        let len: usize = text::chars_bytes(&buf.text);
        let line = ContextLine {
            line: number,
            text: text::string_of(&buf.text),
            kind,
            byte_range: buf.start..buf.start + len,
        };
        let ghost prior = order::views(lines@);
        lines.push(line);
        proof {
            assert(order::views(lines@) == prior.push(line@));
            assert(line@ == window_line(ls, k + 1, first as int, last as int));
        }
        k += 1;
    }
    assert(order::views(lines@) == window(
        ls,
        first as int,
        last as int,
        before as int,
        after as int,
    ));
    Context { lines, selection: finding.selected_range() }
}

/// A line lies inside the text that it is a line of.
proof fn lemma_line_bytes(s: Seq<char>, k: int)
    requires
        0 <= k < text::lines_of(s).len(),
    ensures
        ({
            let ls = text::lines_of(s);
            line_offset(ls, k) + text::byte_len(ls[k].text) <= text::byte_len(s)
        }),
{
    let ls = text::lines_of(s);
    text::lemma_lines_join(s, 0);
    assert(s.skip(0) == s);
    text::lemma_line_extent(ls, k);
    let a = text::line_start(ls, k);
    let b = a + ls[k].text.len();
    text::lemma_byte_len_prefix(s, a, b);
}

/// The byte range of every line of a source holds exactly that line's text.
pub proof fn law_line_ranges_hold_their_text(s: Seq<char>, k: int)
    requires
        0 <= k < text::lines_of(s).len(),
    ensures
        ({
            let ls = text::lines_of(s);
            let start = line_offset(ls, k);
            let end = start + text::byte_len(ls[k].text);
            &&& text::is_boundary(s, start)
            &&& text::is_boundary(s, end)
            &&& text::byte_slice(s, start, end) == ls[k].text
        }),
{
    let ls = text::lines_of(s);
    text::lemma_lines_join(s, 0);
    assert(s.skip(0) == s);
    text::lemma_line_extent(ls, k);
    let a = text::line_start(ls, k);
    let b = a + ls[k].text.len();
    text::lemma_byte_len_prefix(s, a, b);
    text::lemma_char_pos(s, a, line_offset(ls, k));
    text::lemma_char_pos(s, b, line_offset(ls, k) + text::byte_len(ls[k].text));
}

/// The context of lines `first..=last` holds exactly the lines of the source
/// that are among them, up to `before` lines above them or up to `after`
/// lines below them.
pub proof fn law_window_holds_the_lines_around(
    ls: Seq<text::TextLine>,
    first: int,
    last: int,
    before: int,
    after: int,
    n: int,
)
    requires
        0 <= before,
        0 <= after,
    ensures
        (exists|i: int|
            0 <= i < window(ls, first, last, before, after).len() && (#[trigger] window(
                ls,
                first,
                last,
                before,
                after,
            )[i]).line == n) <==> 1 <= n <= ls.len() && first - before <= n <= last + after,
{
    let w = window(ls, first, last, before, after);
    if 1 <= n <= ls.len() && first - before <= n <= last + after {
        let lo = if first - before > 1 {
            first - before
        } else {
            1
        };
        assert(w[n - lo].line == n);
    }
}

/// A line of the context is selected when it is one of the lines
/// `first..=last`, and else before or after them; it starts behind the lines
/// before it and takes in its text.
pub proof fn law_window_lines_are_those_of_the_source(
    s: Seq<char>,
    first: int,
    last: int,
    before: int,
    after: int,
    i: int,
)
    requires
        0 <= before,
        0 <= after,
        first <= last,
        0 <= i < window(text::lines_of(s), first, last, before, after).len(),
    ensures
        ({
            let l = window(text::lines_of(s), first, last, before, after)[i];
            &&& l.kind is Selected <==> first <= l.line <= last
            &&& l.kind is Before <==> l.line < first
            &&& l.kind is After <==> l.line > last
            &&& text::is_boundary(s, l.start)
            &&& text::is_boundary(s, l.end)
            &&& text::byte_slice(s, l.start, l.end) == l.text
            &&& l.start == text::byte_len(text::join_lines(text::lines_of(s).take(l.line - 1)))
            &&& l.text == text::lines_of(s)[l.line - 1].text
        }),
{
    let l = window(text::lines_of(s), first, last, before, after)[i];
    law_line_ranges_hold_their_text(s, l.line - 1);
}

/// The window holds consecutive lines of the file, at most `before` and
/// `after` around the selection, each once.
pub proof fn law_window_is_consecutive(
    ls: Seq<text::TextLine>,
    first: int,
    last: int,
    before: int,
    after: int,
    i: int,
)
    requires
        0 <= before,
        0 <= after,
        0 <= i < window(ls, first, last, before, after).len(),
    ensures
        ({
            let w = window(ls, first, last, before, after);
            &&& w[i].line == w[0].line + i
            &&& 1 <= w[i].line <= ls.len()
            &&& first - before <= w[i].line <= last + after
            &&& w[i].text == ls[w[i].line - 1].text
        }),
{
}

} // verus!
