//! The domain model: comments, comment runs, findings, and selections.
//!
//! All paths in this module are **repository-relative**, with `/` between
//! components; byte ranges are offsets into the file the comment lives in.

use std::ops::Range;
use vstd::prelude::*;

verus! {

/// The mathematical content of a [`Comment`].
#[verifier::ext_equal]
pub struct CommentView {
    pub path: Seq<char>,
    pub line: int,
    pub end_line: int,
    pub column: int,
    pub start: int,
    pub end: int,
    pub text: Seq<char>,
    pub language: Seq<char>,
}

/// A single comment found by the scanner.
#[derive(Debug, PartialEq, Eq)]
pub struct Comment {
    /// Path relative to the repository root.
    pub path: String,
    /// 1-based line of the comment's first character.
    pub line: usize,
    /// 1-based line of the comment's last character.
    pub end_line: usize,
    /// 0-based byte column of the comment's first character.
    pub column: usize,
    /// Byte range of the comment within the file.
    pub byte_range: Range<usize>,
    /// Full comment text, including its marker (e.g. `// TODO: x`).
    pub text: String,
    /// Language id the comment was parsed with (see [`crate::language`]).
    pub language: String,
}

impl View for Comment {
    type V = CommentView;

    open spec fn view(&self) -> CommentView {
        CommentView {
            path: self.path@,
            line: self.line as int,
            end_line: self.end_line as int,
            column: self.column as int,
            start: self.byte_range.start as int,
            end: self.byte_range.end as int,
            text: self.text@,
            language: self.language@,
        }
    }
}

impl Clone for Comment {
    fn clone(&self) -> (r: Self)
        ensures
            r == *self,
    {
        Comment {
            path: self.path.clone(),
            line: self.line,
            end_line: self.end_line,
            column: self.column,
            byte_range: self.byte_range.start..self.byte_range.end,
            text: self.text.clone(),
            language: self.language.clone(),
        }
    }
}

/// A run of attached comments: comments on the same line or on immediately
/// consecutive lines are considered attached and are removed together.
///
/// The scanner splits a run at blank lines and at every *matched* comment,
/// so a run produced by a scan carries exactly one matched comment (the
/// finding's `primary`); the remaining comments are its attached neighbours.
#[derive(Debug, PartialEq, Eq)]
pub struct CommentRun {
    /// The attached comments, sorted by byte position.
    pub comments: Vec<Comment>,
}

impl View for CommentRun {
    type V = Seq<CommentView>;

    open spec fn view(&self) -> Seq<CommentView> {
        self.comments@.map_values(|c: Comment| c@)
    }
}

impl Clone for CommentRun {
    fn clone(&self) -> (r: Self)
        ensures
            r.comments@ == self.comments@,
            r@ == self@,
    {
        CommentRun { comments: clone_comments(&self.comments) }
    }
}

/// A copy of a list of comments.
pub fn clone_comments(v: &Vec<Comment>) -> (r: Vec<Comment>)
    ensures
        r@ == v@,
{
    let mut out: Vec<Comment> = Vec::new();
    let mut i: usize = 0;
    while i < v.len()
        invariant
            i <= v.len(),
            out@ == v@.take(i as int),
        decreases v.len() - i,
    {
        out.push(v[i].clone());
        i += 1;
    }
    assert(v@.take(v.len() as int) == v@);
    out
}

impl CommentRun {
    /// The byte range covering every comment in the run.
    pub fn byte_range(&self) -> (r: Range<usize>)
        requires
            self@.len() > 0,
        ensures
            r.start == self@.first().start,
            r.end == self@.last().end,
    {
        let last: usize = self.comments.len() - 1;
        self.comments[0].byte_range.start..self.comments[last].byte_range.end
    }

    /// The 1-based line where the run starts.
    pub fn first_line(&self) -> (r: usize)
        requires
            self@.len() > 0,
        ensures
            r == self@.first().line,
    {
        self.comments[0].line
    }
}

/// Which comments of a [`CommentRun`] the user chose to act on, as an
/// inclusive index range into `run.comments`.
///
/// The default is the full run; shrinking the selection is how the user
/// detaches a `TODO` from an attached comment they want to keep.
#[derive(Debug, Clone, Copy, PartialEq, Eq)]
pub struct Selection {
    /// First selected comment index (inclusive).
    pub start: usize,
    /// Last selected comment index (inclusive).
    pub end: usize,
}

/// The selection of every comment of a run with `len` comments; for an empty
/// run, a selection whose `start` exceeds its `end`.
pub open spec fn full_selection(len: nat) -> Selection {
    if len == 0 {
        Selection { start: 1, end: 0 }
    } else {
        Selection { start: 0, end: (len - 1) as usize }
    }
}

impl Selection {
    /// Whether the selection is a non-empty part of a run with `len`
    /// comments that holds the comment at index `anchor`.
    pub open spec fn holds(self, len: nat, anchor: int) -> bool {
        self.start <= anchor <= self.end < len
    }

    /// The full selection of a run with `len` comments.
    ///
    /// An empty run yields an empty selection where `start > end`; the
    /// scanner never produces such runs.
    pub fn full(len: usize) -> (r: Self)
        ensures
            r == full_selection(len as nat),
    {
        if len == 0 {
            Selection { start: 1, end: 0 }
        } else {
            Selection { start: 0, end: len - 1 }
        }
    }

    /// Whether this selection covers every comment of a run with `len`
    /// comments.
    pub fn is_full(&self, len: usize) -> (r: bool)
        ensures
            r == (len == 0 || *self == full_selection(len as nat)),
    {
        len == 0 || (self.start == 0 && self.end == len - 1)
    }

    /// The byte range of the selected comments within the file.
    pub fn byte_range(&self, run: &CommentRun) -> (r: Range<usize>)
        requires
            self.start < run@.len(),
            self.end < run@.len(),
        ensures
            r.start == run@[self.start as int].start,
            r.end == run@[self.end as int].end,
    {
        run.comments[self.start].byte_range.start..run.comments[self.end].byte_range.end
    }

    /// Clamps the selection to a run with `len` comments, keeping at least
    /// the comment at index `anchor` selected.
    pub fn clamp(&mut self, len: usize, anchor: usize)
        ensures
            len == 0 ==> *final(self) == *old(self),
            len > 0 ==> {
                &&& final(self).start == smaller(
                    smaller(old(self).start as int, anchor as int),
                    len - 1,
                )
                &&& final(self).end == smaller(larger(old(self).end as int, anchor as int), len - 1)
            },
            anchor < len ==> final(self).holds(len as nat, anchor as int),
    {
        if len == 0 {
            return ;
        }
        if self.start > anchor {
            self.start = anchor;
        }
        if self.start > len - 1 {
            self.start = len - 1;
        }
        if self.end < anchor {
            self.end = anchor;
        }
        if self.end > len - 1 {
            self.end = len - 1;
        }
    }
}

/// The smaller of two integers.
pub open spec fn smaller(a: int, b: int) -> int {
    if a <= b {
        a
    } else {
        b
    }
}

/// The larger of two integers.
pub open spec fn larger(a: int, b: int) -> int {
    if a <= b {
        b
    } else {
        a
    }
}

/// The smaller and the larger of two integers are those integers, in order.
pub proof fn law_smaller_and_larger(a: int, b: int)
    ensures
        smaller(a, b) <= a && smaller(a, b) <= b,
        smaller(a, b) == a || smaller(a, b) == b,
        larger(a, b) >= a && larger(a, b) >= b,
        larger(a, b) == a || larger(a, b) == b,
{
}

/// The mathematical content of a [`Finding`].
#[verifier::ext_equal]
pub struct FindingView {
    pub run: Seq<CommentView>,
    pub category: Seq<char>,
    pub primary: int,
    pub selection: Selection,
}

impl FindingView {
    /// Whether the primary comment is in the run and the selection is a part
    /// of the run that holds the primary comment.
    pub open spec fn wf(self) -> bool {
        &&& 0 <= self.primary < self.run.len()
        &&& self.selection.holds(self.run.len(), self.primary)
    }

    /// Whether the primary comment and the ends of the selection are comments
    /// of the run.
    pub open spec fn in_bounds(self) -> bool {
        &&& 0 <= self.primary < self.run.len()
        &&& self.selection.start < self.run.len()
        &&& self.selection.end < self.run.len()
    }

    /// The same finding with another selection.
    pub open spec fn select(self, start: int, end: int) -> FindingView {
        FindingView {
            selection: Selection { start: start as usize, end: end as usize },
            ..self
        }
    }

    /// The finding with one comment less selected: from the bottom, or from
    /// the top where the primary comment is the last selected one. The
    /// primary comment stays selected.
    pub open spec fn shrunk(self) -> FindingView {
        if self.selection.end > self.primary {
            self.select(self.selection.start as int, self.selection.end - 1)
        } else if self.selection.start < self.primary {
            self.select(self.selection.start + 1, self.selection.end as int)
        } else {
            self
        }
    }

    /// The finding with one comment more selected: at the bottom, or at the
    /// top where the run has no further comment.
    pub open spec fn grown(self) -> FindingView {
        if self.selection.end + 1 < self.run.len() {
            self.select(self.selection.start as int, self.selection.end + 1)
        } else if self.selection.start > 0 {
            self.select(self.selection.start - 1, self.selection.end as int)
        } else {
            self
        }
    }

    /// The finding with every comment selected.
    pub open spec fn whole(self) -> FindingView {
        FindingView { selection: full_selection(self.run.len()), ..self }
    }

    /// The byte range from the first to the last selected comment.
    pub open spec fn selected(self) -> (int, int) {
        (self.run[self.selection.start as int].start, self.run[self.selection.end as int].end)
    }

    /// The byte ranges of the selected comments, in order.
    pub open spec fn selected_each(self) -> Seq<(int, int)> {
        Seq::new(
            (self.selection.end + 1 - self.selection.start) as nat,
            |k: int|
                (
                    self.run[self.selection.start + k].start,
                    self.run[self.selection.start + k].end,
                ),
        )
    }
}

/// Shrinking takes one comment out of the selection, the last one as long as
/// it stands below the primary comment, and never the primary comment; a
/// selection of that comment alone stays.
pub proof fn law_shrinking_takes_one_comment(f: FindingView)
    requires
        f.wf(),
    ensures
        ({
            let g = f.shrunk();
            let n = f.selection.end - f.selection.start + 1;
            &&& g.run == f.run && g.category == f.category && g.primary == f.primary
            &&& g.selection.start <= f.primary <= g.selection.end
            &&& f.selection.start <= g.selection.start && g.selection.end <= f.selection.end
            &&& n > 1 ==> g.selection.end - g.selection.start + 1 == n - 1
            &&& n == 1 ==> g.selection == f.selection
            &&& f.selection.end > f.primary ==> g.selection.start == f.selection.start
        }),
{
}

/// Growing adds one neighbour to the selection, the one below as long as the
/// run has it; a selection of the whole run stays.
pub proof fn law_growing_adds_one_comment(f: FindingView)
    requires
        f.wf(),
        f.run.len() <= usize::MAX,
    ensures
        ({
            let g = f.grown();
            let n = f.selection.end - f.selection.start + 1;
            &&& g.run == f.run && g.category == f.category && g.primary == f.primary
            &&& g.selection.start <= f.selection.start && f.selection.end <= g.selection.end
            &&& g.selection.end < f.run.len()
            &&& n < f.run.len() ==> g.selection.end - g.selection.start + 1 == n + 1
            &&& n == f.run.len() ==> g.selection == f.selection
            &&& f.selection.end + 1 < f.run.len() ==> g.selection.start == f.selection.start
        }),
{
}

/// Resetting selects every comment of the run.
pub proof fn law_resetting_selects_all(f: FindingView, i: int)
    requires
        f.run.len() <= usize::MAX,
        0 <= i < f.run.len(),
    ensures
        f.whole().selection.start <= i <= f.whole().selection.end < f.run.len(),
        f.whole().run == f.run && f.whole().category == f.category && f.whole().primary
            == f.primary,
{
}

/// The selected ranges are those of the selected comments, one each, and the
/// selected range reaches from the first of them to the last.
pub proof fn law_selected_ranges_are_the_comments(f: FindingView, i: int)
    requires
        f.selection.start <= i <= f.selection.end < f.run.len(),
    ensures
        f.selected_each().len() == f.selection.end - f.selection.start + 1,
        f.selected_each()[i - f.selection.start] == (f.run[i].start, f.run[i].end),
        f.selected().0 == f.run[f.selection.start as int].start,
        f.selected().1 == f.run[f.selection.end as int].end,
        f.selected().0 == f.selected_each().first().0,
        f.selected().1 == f.selected_each().last().1,
{
}

/// One actionable unit produced by the scanner: a comment run that contains
/// a category match.
///
/// The scanner emits one finding *per matched comment*; adjacent marker
/// comments never merge into a single finding.
#[derive(Debug, PartialEq, Eq)]
pub struct Finding {
    /// The attached comment run the match belongs to.
    pub run: CommentRun,
    /// The category that matched, e.g. `TODO`.
    pub category: String,
    /// Index into `run.comments` of the matched comment. Runs produced by
    /// the scan contain exactly one match, so this is stable per finding.
    pub primary: usize,
    /// The comments the user chose to act on; defaults to the full run.
    pub selection: Selection,
}

impl View for Finding {
    type V = FindingView;

    open spec fn view(&self) -> FindingView {
        FindingView {
            run: self.run@,
            category: self.category@,
            primary: self.primary as int,
            selection: self.selection,
        }
    }
}

impl Clone for Finding {
    fn clone(&self) -> (r: Self)
        ensures
            r@ == self@,
    {
        Finding {
            run: self.run.clone(),
            category: self.category.clone(),
            primary: self.primary,
            selection: self.selection,
        }
    }
}

impl Finding {
    /// The byte range of the currently selected comments.
    pub fn selected_range(&self) -> (r: Range<usize>)
        requires
            self.selection.start < self@.run.len(),
            self.selection.end < self@.run.len(),
        ensures
            (r.start as int, r.end as int) == self@.selected(),
    {
        self.selection.byte_range(&self.run)
    }

    /// The byte range of each selected comment, in order.
    pub fn selected_ranges(&self) -> (r: Vec<Range<usize>>)
        requires
            self.selection.start <= self.selection.end,
            self.selection.end < self@.run.len(),
        ensures
            r@.map_values(|r: Range<usize>| (r.start as int, r.end as int))
                == self@.selected_each(),
    {
        let ghost each = self@.selected_each();
        let mut out: Vec<Range<usize>> = Vec::new();
        let mut i: usize = self.selection.start;
        while i <= self.selection.end
            invariant
                self.selection.start <= i <= self.selection.end + 1,
                self.selection.end < self@.run.len(),
                each == self@.selected_each(),
                out@.len() == i - self.selection.start,
                forall|k: int|
                    0 <= k < out@.len() ==> ((#[trigger] out@[k]).start as int, out@[k].end as int)
                        == each[k],
            decreases self.selection.end + 1 - i,
        {
            let c = &self.run.comments[i];
            assert(self@.run[i as int] == c@);
            assert(i < self.run.comments.len());
            out.push(c.byte_range.start..c.byte_range.end);
            i += 1;
        }
        assert(out@.map_values(|r: Range<usize>| (r.start as int, r.end as int)) == each);
        out
    }

    /// The repository-relative path of the run.
    pub fn path(&self) -> (r: &String)
        requires
            self@.run.len() > 0,
        ensures
            r@ == self@.run[0].path,
    {
        &self.run.comments[0].path
    }

    /// The 1-based line of the primary (matched) comment.
    pub fn line(&self) -> (r: usize)
        requires
            self.primary < self@.run.len(),
        ensures
            r == self@.run[self.primary as int].line,
    {
        self.run.comments[self.primary].line
    }

    /// Grows the selection upward by one comment (never past the run).
    pub fn grow_selection_top(&mut self)
        ensures
            final(self)@ == (if old(self).selection.start > 0 {
                old(self)@.select(old(self).selection.start - 1, old(self).selection.end as int)
            } else {
                old(self)@
            }),
            old(self)@.wf() ==> final(self)@.wf(),
    {
        if self.selection.start > 0 {
            self.selection.start = self.selection.start - 1;
        }
    }

    /// Grows the selection downward by one comment (never past the run).
    pub fn grow_selection_bottom(&mut self)
        ensures
            final(self)@ == (if old(self).selection.end + 1 < old(self)@.run.len() {
                old(self)@.select(old(self).selection.start as int, old(self).selection.end + 1)
            } else {
                old(self)@
            }),
            old(self)@.wf() ==> final(self)@.wf(),
    {
        let len: usize = self.run.comments.len();
        if len > 0 && self.selection.end < len - 1 {
            self.selection.end = self.selection.end + 1;
        }
    }

    /// Shrinks the selection from the top by one comment; the primary
    /// comment always stays selected.
    pub fn shrink_selection_top(&mut self)
        ensures
            final(self)@ == (if old(self).selection.start < old(self).primary {
                old(self)@.select(old(self).selection.start + 1, old(self).selection.end as int)
            } else {
                old(self)@
            }),
            old(self)@.wf() ==> final(self)@.wf(),
    {
        if self.selection.start < self.primary {
            self.selection.start = self.selection.start + 1;
        }
    }

    /// Shrinks the selection from the bottom by one comment; the primary
    /// comment always stays selected.
    pub fn shrink_selection_bottom(&mut self)
        ensures
            final(self)@ == (if old(self).selection.end > old(self).primary {
                old(self)@.select(old(self).selection.start as int, old(self).selection.end - 1)
            } else {
                old(self)@
            }),
            old(self)@.wf() ==> final(self)@.wf(),
    {
        if self.selection.end > self.primary {
            self.selection.end = self.selection.end - 1;
        }
    }

    /// Restores the selection to the full run.
    pub fn reset_selection(&mut self)
        ensures
            final(self)@ == old(self)@.whole(),
            old(self)@.wf() ==> final(self)@.wf(),
    {
        self.selection = Selection::full(self.run.comments.len());
    }

    /// Shrinks the selection by one comment, from the bottom where that keeps
    /// the primary comment selected, else from the top.
    pub fn shrink_selection(&mut self)
        ensures
            final(self)@ == old(self)@.shrunk(),
            old(self)@.wf() ==> final(self)@.wf(),
    {
        if self.selection.end > self.primary {
            self.shrink_selection_bottom();
        } else {
            self.shrink_selection_top();
        }
    }

    /// Grows the selection by one comment, at the bottom where the run has
    /// one more, else at the top.
    pub fn grow_selection(&mut self)
        ensures
            final(self)@ == old(self)@.grown(),
            old(self)@.wf() ==> final(self)@.wf(),
    {
        let len: usize = self.run.comments.len();
        if len > 0 && self.selection.end < len - 1 {
            self.grow_selection_bottom();
        } else {
            self.grow_selection_top();
        }
    }
}

} // verus!
