//! The machine-readable report of `todone scan --json`.

use crate::config::clone_option;
use crate::context;
use crate::context::{Context, LineKind};
use crate::model;
use crate::model::Finding;
use crate::order;
use crate::repo::RepoInfo;
use crate::scan::ScanStats;
use std::ops::Range;
use vstd::prelude::*;

verus! {

/// The machine-readable scan report.
#[derive(Debug)]
pub struct ScanReport {
    /// The repository the scan ran in.
    pub repo: RepoReport,
    /// Every finding, in scan order.
    pub findings: Vec<FindingReport>,
    /// Aggregate counters.
    pub stats: ScanStats,
}

/// Repository metadata for reports.
#[derive(Debug)]
pub struct RepoReport {
    /// Absolute path of the repository root.
    pub root: String,
    /// `HEAD` commit hash, when the repo has commits.
    pub commit: Option<String>,
    /// Whether the root is an actual git repository.
    pub is_repo: bool,
    /// The `origin` remote URL, when the repo has one.
    pub remote: Option<String>,
}

impl RepoReport {
    /// The report of a repository.
    pub fn new(repo: &RepoInfo) -> (r: Self)
        ensures
            r.root == repo.root,
            r.commit == repo.commit,
            r.is_repo == repo.is_repo,
            r.remote == repo.remote,
    {
        RepoReport {
            root: repo.root.clone(),
            commit: clone_option(&repo.commit),
            is_repo: repo.is_repo,
            remote: clone_option(&repo.remote),
        }
    }
}

/// One comment of the run.
#[derive(Debug)]
pub struct CommentReport {
    /// 1-based start line.
    pub line: usize,
    /// 1-based end line.
    pub end_line: usize,
    /// Byte range within the file.
    pub range: Range<usize>,
    /// The comment text, including its marker.
    pub text: String,
}

/// The mathematical content of a [`CommentReport`].
#[verifier::ext_equal]
pub struct CommentReportView {
    pub line: int,
    pub end_line: int,
    pub start: int,
    pub end: int,
    pub text: Seq<char>,
}

impl View for CommentReport {
    type V = CommentReportView;

    open spec fn view(&self) -> CommentReportView {
        CommentReportView {
            line: self.line as int,
            end_line: self.end_line as int,
            start: self.range.start as int,
            end: self.range.end as int,
            text: self.text@,
        }
    }
}

/// One context line.
#[derive(Debug)]
pub struct ContextReport {
    /// 1-based line number.
    pub line: usize,
    /// The line text.
    pub text: String,
    /// Role of the line.
    pub kind: LineKind,
}

/// The mathematical content of a [`ContextReport`].
#[verifier::ext_equal]
pub struct ContextReportView {
    pub line: int,
    pub text: Seq<char>,
    pub kind: LineKind,
}

impl View for ContextReport {
    type V = ContextReportView;

    open spec fn view(&self) -> ContextReportView {
        ContextReportView { line: self.line as int, text: self.text@, kind: self.kind }
    }
}

/// One finding, with its context window.
#[derive(Debug)]
pub struct FindingReport {
    /// Repository-relative path.
    pub path: String,
    /// Language id.
    pub language: String,
    /// The matched category.
    pub category: String,
    /// 1-based line of the primary (matched) comment.
    pub line: usize,
    /// Byte range of the selected comments.
    pub selection: Range<usize>,
    /// All comments of the run, in order.
    pub comments: Vec<CommentReport>,
    /// Index into `comments` of the primary comment.
    pub primary: usize,
    /// The context window.
    pub context: Vec<ContextReport>,
}

/// The mathematical content of a [`FindingReport`].
#[verifier::ext_equal]
pub struct FindingReportView {
    pub path: Seq<char>,
    pub language: Seq<char>,
    pub category: Seq<char>,
    pub line: int,
    pub selection: (int, int),
    pub comments: Seq<CommentReportView>,
    pub primary: int,
    pub context: Seq<ContextReportView>,
}

impl View for FindingReport {
    type V = FindingReportView;

    open spec fn view(&self) -> FindingReportView {
        FindingReportView {
            path: self.path@,
            language: self.language@,
            category: self.category@,
            line: self.line as int,
            selection: (self.selection.start as int, self.selection.end as int),
            comments: order::views(self.comments@),
            primary: self.primary as int,
            context: order::views(self.context@),
        }
    }
}

/// The report of a comment.
pub open spec fn comment_report(c: model::CommentView) -> CommentReportView {
    CommentReportView {
        line: c.line,
        end_line: c.end_line,
        start: c.start,
        end: c.end,
        text: c.text,
    }
}

/// The report of a context line.
pub open spec fn context_report(l: context::LineView) -> ContextReportView {
    ContextReportView { line: l.line, text: l.text, kind: l.kind }
}

/// The report of a finding with its context lines.
pub open spec fn finding_report(
    f: model::FindingView,
    ls: Seq<context::LineView>,
) -> FindingReportView {
    FindingReportView {
        path: f.run[0].path,
        language: f.run[f.primary].language,
        category: f.category,
        line: f.run[f.primary].line,
        selection: f.selected(),
        comments: f.run.map_values(|c: model::CommentView| comment_report(c)),
        primary: f.primary,
        context: ls.map_values(|l: context::LineView| context_report(l)),
    }
}

/// The report of a finding holds its file, the line and language of its
/// matched comment, its category, the bytes from its first to its last
/// selected comment, all its comments in order, and the lines of its context.
pub proof fn law_reports_hold_the_finding(f: model::FindingView, ls: Seq<context::LineView>)
    requires
        f.in_bounds(),
    ensures
        ({
            let r = finding_report(f, ls);
            let c = f.run[f.primary];
            &&& r.path == f.run[0].path
            &&& r.language == c.language
            &&& r.line == c.line
            &&& r.category == f.category
            &&& r.primary == f.primary
            &&& r.selection.0 == f.run[f.selection.start as int].start
            &&& r.selection.1 == f.run[f.selection.end as int].end
            &&& r.comments.len() == f.run.len()
            &&& forall|k: int|
                0 <= k < f.run.len() ==> {
                    let x = #[trigger] r.comments[k];
                    &&& x.line == f.run[k].line
                    &&& x.end_line == f.run[k].end_line
                    &&& x.start == f.run[k].start
                    &&& x.end == f.run[k].end
                    &&& x.text == f.run[k].text
                }
            &&& r.context.len() == ls.len()
            &&& forall|k: int|
                0 <= k < ls.len() ==> {
                    let x = #[trigger] r.context[k];
                    &&& x.line == ls[k].line
                    &&& x.text == ls[k].text
                    &&& x.kind == ls[k].kind
                }
        }),
{
}

impl FindingReport {
    /// Converts a finding plus its context into the report shape.
    pub fn new(finding: &Finding, context: &Context) -> (r: Self)
        requires
            finding@.in_bounds(),
        ensures
            r@ == finding_report(finding@, order::views(context.lines@)),
    {
        let ghost run = finding@.run;
        let ghost ls = order::views(context.lines@);
        let mut comments: Vec<CommentReport> = Vec::new();
        let mut i: usize = 0;
        while i < finding.run.comments.len()
            invariant
                i <= finding.run.comments.len(),
                run == finding@.run,
                order::views(comments@) == run.take(i as int).map_values(
                    |c: model::CommentView| comment_report(c),
                ),
            decreases finding.run.comments.len() - i,
        {
            let c = &finding.run.comments[i];
            let entry = CommentReport {
                line: c.line,
                end_line: c.end_line,
                range: c.byte_range.start..c.byte_range.end,
                text: c.text.clone(),
            };
            let ghost before = order::views(comments@);
            comments.push(entry);
            proof {
                assert(order::views(comments@) == before.push(entry@));
                assert(run[i as int] == c@);
                assert(run.take(i + 1).map_values(|c: model::CommentView| comment_report(c))
                    == before.push(comment_report(run[i as int])));
            }
            i += 1;
        }
        assert(run.take(run.len() as int) == run);
        let mut lines: Vec<ContextReport> = Vec::new();
        let mut k: usize = 0;
        while k < context.lines.len()
            invariant
                k <= context.lines.len(),
                ls == order::views(context.lines@),
                order::views(lines@) == ls.take(k as int).map_values(
                    |l: context::LineView| context_report(l),
                ),
            decreases context.lines.len() - k,
        {
            let l = &context.lines[k];
            let entry = ContextReport { line: l.line, text: l.text.clone(), kind: l.kind };
            let ghost before = order::views(lines@);
            lines.push(entry);
            proof {
                assert(order::views(lines@) == before.push(entry@));
                assert(ls[k as int] == l@);
                assert(ls.take(k + 1).map_values(|l: context::LineView| context_report(l))
                    == before.push(context_report(ls[k as int])));
            }
            k += 1;
        }
        assert(ls.take(ls.len() as int) == ls);
        let primary = &finding.run.comments[finding.primary];
        FindingReport {
            path: finding.path().clone(),
            language: primary.language.clone(),
            category: finding.category.clone(),
            line: primary.line,
            selection: finding.selected_range(),
            comments,
            primary: finding.primary,
            context: lines,
        }
    }
}

} // verus!
