//! What `todone scan` prints.

use crate::config::Config;
use crate::context;
use crate::context::extract_context;
use crate::highlight::HighlightSpan;
use crate::matcher;
use crate::model;
use crate::model::Finding;
use crate::order;
use crate::render;
use crate::repo::RepoInfo;
use crate::report;
use crate::report::{FindingReport, RepoReport, ScanReport};
use crate::scan::ScanResult;
use crate::text;
use std::ops::Range;
use vstd::prelude::*;
use vstd::string::*;

verus! {

/// The loaded configuration plus the resolved repository root.
#[derive(Debug)]
pub struct ScanContext {
    /// Effective configuration.
    pub config: Config,
    /// Repository info (root and commit).
    pub repo: RepoInfo,
}

/// The context window of a finding.
pub open spec fn window_of(
    f: model::FindingView,
    source: Seq<char>,
    before: int,
    after: int,
) -> Seq<context::LineView> {
    context::window(
        text::lines_of(source),
        context::selected_lines(f).0,
        context::selected_lines(f).1,
        before,
        after,
    )
}

/// The selected bytes of a finding.
pub open spec fn selection_of(f: model::FindingView) -> Range<usize> {
    Range { start: f.selected().0 as usize, end: f.selected().1 as usize }
}

/// A finding in the text report: its header, its context window and an empty
/// line.
pub open spec fn finding_text(
    f: model::FindingView,
    source: Seq<char>,
    spans: Seq<HighlightSpan>,
    before: int,
    after: int,
    color: bool,
) -> Seq<char> {
    render::header_text(f.run[0].path, f.run[f.primary].line as nat, f.category, color) + "\n"@
        + render::context_text(
        window_of(f, source, before, after),
        spans,
        selection_of(f),
        color,
    ) + "\n"@
}

/// Renders a finding for the text report: its header, its context window and
/// an empty line.
pub fn render_finding(
    finding: &Finding,
    context: &ScanContext,
    source: &str,
    spans: &[HighlightSpan],
    color: bool,
) -> (r: String)
    requires
        finding@.in_bounds(),
    ensures
        r@ == finding_text(
            finding@,
            source@,
            spans@,
            context.config.context.before as int,
            context.config.context.after as int,
            color,
        ),
{
    let ctx = extract_context(
        source,
        finding,
        context.config.context.before,
        context.config.context.after,
    );
    assert(ctx.selection == selection_of(finding@));
    let mut out = render::render_finding_header(
        finding.path().as_str(),
        finding.line(),
        finding.category.as_str(),
        color,
    );
    out.append("\n");
    let block = render::render_context(&ctx, spans, color);
    out.append(block.as_str());
    out.append("\n");
    out
}

/// The reports of the first `k` findings, leaving out those whose file could
/// not be read.
pub open spec fn reports_upto(
    fs: Seq<model::FindingView>,
    sources: Seq<Option<Seq<char>>>,
    before: int,
    after: int,
    k: int,
) -> Seq<report::FindingReportView>
    decreases k,
{
    if k <= 0 {
        Seq::empty()
    } else {
        let rest = reports_upto(fs, sources, before, after, k - 1);
        match sources[k - 1] {
            Some(source) => rest.push(
                report::finding_report(fs[k - 1], window_of(fs[k - 1], source, before, after)),
            ),
            None => rest,
        }
    }
}

/// The texts of the files of a list of findings.
pub open spec fn source_texts(sources: Seq<Option<String>>) -> Seq<Option<Seq<char>>> {
    sources.map_values(|s: Option<String>| matcher::text_option(s))
}

/// Every finding whose source could be read is reported, in the order of the
/// findings, with the lines around its selected comments; the others are left
/// out.
pub proof fn law_readable_findings_are_reported(
    fs: Seq<model::FindingView>,
    sources: Seq<Option<Seq<char>>>,
    before: int,
    after: int,
    k: int,
)
    requires
        0 <= k <= fs.len(),
        sources.len() == fs.len(),
    ensures
        ({
            let rs = reports_upto(fs, sources, before, after, k);
            &&& rs.len() <= k
            &&& (forall|i: int| 0 <= i < k ==> (#[trigger] sources[i]) is Some) ==> {
                &&& rs.len() == k
                &&& forall|i: int|
                    0 <= i < k ==> #[trigger] rs[i] == report::finding_report(
                        fs[i],
                        context::window(
                            text::lines_of(sources[i]->0),
                            fs[i].run[fs[i].selection.start as int].line,
                            fs[i].run[fs[i].selection.end as int].end_line,
                            before,
                            after,
                        ),
                    )
            }
            &&& forall|i: int|
                0 <= i < k && (#[trigger] sources[i]) is Some ==> exists|j: int|
                    0 <= j < rs.len() && j <= i && (#[trigger] rs[j]).primary == fs[i].primary
                        && rs[j].category == fs[i].category && rs[j].path == fs[i].run[0].path
                        && rs[j].comments.len() == fs[i].run.len()
        }),
    decreases k,
{
    if k > 0 {
        law_readable_findings_are_reported(fs, sources, before, after, k - 1);
        let low = reports_upto(fs, sources, before, after, k - 1);
        let rs = reports_upto(fs, sources, before, after, k);
        assert forall|i: int| 0 <= i < k && (#[trigger] sources[i]) is Some implies exists|j: int|
            0 <= j < rs.len() && j <= i && (#[trigger] rs[j]).primary == fs[i].primary
                && rs[j].category == fs[i].category && rs[j].path == fs[i].run[0].path
                && rs[j].comments.len() == fs[i].run.len() by {
            if i < k - 1 {
                let j = choose|j: int|
                    0 <= j < low.len() && j <= i && (#[trigger] low[j]).primary == fs[i].primary
                        && low[j].category == fs[i].category && low[j].path == fs[i].run[0].path
                        && low[j].comments.len() == fs[i].run.len();
                assert(rs[j] == low[j]);
            } else {
                assert(rs[low.len() as int].primary == fs[i].primary);
            }
        }
    }
}

/// A finding is shown, without colors, as its path, line and category on a
/// line of their own, the lines around its selected comments, and an empty
/// line.
pub proof fn law_findings_are_shown_with_their_place(
    f: model::FindingView,
    source: Seq<char>,
    spans: Seq<HighlightSpan>,
    before: int,
    after: int,
)
    requires
        f.in_bounds(),
    ensures
        ({
            let w = context::window(
                text::lines_of(source),
                f.run[f.selection.start as int].line,
                f.run[f.selection.end as int].end_line,
                before,
                after,
            );
            let selection = Range {
                start: f.run[f.selection.start as int].start as usize,
                end: f.run[f.selection.end as int].end as usize,
            };
            finding_text(f, source, spans, before, after, false) == f.run[0].path + ":"@
                + text::decimal(f.run[f.primary].line as nat) + ": "@ + f.category + "\n"@
                + render::context_text(w, spans, selection, false) + "\n"@
        }),
{
}

/// Builds the JSON report from a scan result. `sources` are the texts of the
/// findings' files, in the order of the findings; a finding whose file could
/// not be read is left out.
pub fn build_report(
    result: &ScanResult,
    context: &ScanContext,
    sources: &Vec<Option<String>>,
) -> (r: ScanReport)
    requires
        forall|k: int|
            0 <= k < result.findings@.len() ==> (#[trigger] result.findings@[k])@.in_bounds(),
        sources@.len() == result.findings@.len(),
    ensures
        r.repo.root == context.repo.root,
        r.repo.commit == context.repo.commit,
        r.repo.is_repo == context.repo.is_repo,
        r.repo.remote == context.repo.remote,
        r.stats == result.stats,
        order::views(r.findings@) == reports_upto(
            order::views(result.findings@),
            source_texts(sources@),
            context.config.context.before as int,
            context.config.context.after as int,
            result.findings@.len() as int,
        ),
{
    let before: usize = context.config.context.before;
    let after: usize = context.config.context.after;
    let ghost fs = order::views(result.findings@);
    let ghost texts = source_texts(sources@);
    let mut findings: Vec<FindingReport> = Vec::new();
    let mut i: usize = 0;
    assert(order::views(findings@) == Seq::<report::FindingReportView>::empty());
    while i < result.findings.len()
        invariant
            i <= result.findings.len(),
            forall|k: int|
                0 <= k < result.findings@.len() ==> (#[trigger] result.findings@[k])@.in_bounds(),
            sources@.len() == result.findings@.len(),
            fs == order::views(result.findings@),
            texts == source_texts(sources@),
            order::views(findings@) == reports_upto(
                fs,
                texts,
                before as int,
                after as int,
                i as int,
            ),
        decreases result.findings.len() - i,
    {
        let finding = &result.findings[i];
        assert(fs[i as int] == finding@ && finding@.in_bounds());
        assert(texts[i as int] == matcher::text_option(sources@[i as int]));
        match &sources[i] {
            Some(source) => {
                let ctx = extract_context(source.as_str(), finding, before, after);
                let entry = FindingReport::new(finding, &ctx);
                let ghost seen = order::views(findings@);
                findings.push(entry);
                assert(order::views(findings@) == seen.push(entry@));
            },
            None => {},
        }
        i += 1;
    }
    ScanReport { repo: RepoReport::new(&context.repo), findings, stats: result.stats }
}

} // verus!
