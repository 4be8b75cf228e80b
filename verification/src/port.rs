//! Execution of a reviewed session.
//!
//! Nothing is created and no file is touched before a session is executed.
//! Then every finding to be ported has its issue created first, and its
//! comment removed only once the issue exists; findings to be deleted just
//! have their comment removed. Findings are taken from the last to the first,
//! so that the byte ranges of the findings still to come stay valid (see
//! [`crate::remove::law_removal_keeps_what_precedes`]).

use crate::cli::{AutoDecision, PortArgs};
use crate::draft;
use crate::draft::IssueDraft;
use crate::forge;
use crate::forge::IssueCreated;
use crate::matcher;
use crate::model;
use crate::order;
use crate::remove;
use crate::remove::{apply_removals, FileSnapshot, RemovalOutcome, RemoveError};
use crate::render;
use crate::repo::RepoInfo;
use crate::scan;
use crate::session;
use crate::session::{Decision, Session};
use crate::text;
use crate::tui;
use crate::tui::AppAction;
use vstd::prelude::*;
use vstd::string::*;

verus! {

/// Issues can only be ported from a repository.
pub fn check_repo(repo: &RepoInfo) -> (r: Result<(), String>)
    ensures
        match r {
            Ok(_) => repo.is_repo,
            Err(message) => !repo.is_repo && message@ == "not in a git repository: "@ + repo.root@,
        },
{
    if repo.is_repo {
        Ok(())
    } else {
        let mut s = "not in a git repository: ".to_owned();
        s.append(repo.root.as_str());
        Err(s)
    }
}

// ---------------------------------------------------------------------------
// The flow
// ---------------------------------------------------------------------------

/// What a port says that finds nothing.
pub const NOTHING_FOUND: &'static str = "no marker comments found";

/// How a port begins.
#[derive(Debug, Clone, Copy, PartialEq, Eq, Structural)]
pub enum Opening {
    /// There is nothing to port.
    NothingFound,
    /// The findings are reviewed on the screen.
    Review,
    /// Every finding gets the same decision.
    Decided(AutoDecision),
}

/// How a port ends.
#[derive(Debug, Clone, Copy, PartialEq, Eq, Structural)]
pub enum Ending {
    /// The review was left; nothing is done.
    Left,
    /// The plan is printed; nothing is done.
    Planned,
    /// The session is executed.
    Executed,
}

/// How a port of `count` findings begins.
pub fn opening(args: &PortArgs, count: usize) -> (r: Opening)
    ensures
        count == 0 ==> r == Opening::NothingFound,
        count > 0 ==> r == (match args.auto {
            Some(auto) => Opening::Decided(auto),
            None => Opening::Review,
        }),
{
    if count == 0 {
        Opening::NothingFound
    } else {
        match args.auto {
            Some(auto) => Opening::Decided(auto),
            None => Opening::Review,
        }
    }
}

/// How a port ends, given how its review was left (`None` without a review).
pub open spec fn ends(args: PortArgs, review: Option<AppAction>) -> Ending {
    match review {
        Some(AppAction::Quit) | Some(AppAction::Continue) => Ending::Left,
        Some(AppAction::Execute) | None => if args.dry_run {
            Ending::Planned
        } else {
            Ending::Executed
        },
    }
}

/// How a port ends, given how its review was left (`None` without a review).
pub fn ending(args: &PortArgs, review: Option<AppAction>) -> (r: Ending)
    ensures
        r == ends(*args, review),
{
    match review {
        Some(AppAction::Quit) | Some(AppAction::Continue) => Ending::Left,
        Some(AppAction::Execute) | None => if args.dry_run {
            Ending::Planned
        } else {
            Ending::Executed
        },
    }
}

/// A review that was left with a request to execute, and a port without a
/// review, end with the plan in a dry run and with the execution otherwise;
/// any other review ends with neither.
pub proof fn law_ports_end_as_asked(args: PortArgs, review: Option<AppAction>)
    ensures
        review is None || review == Some(AppAction::Execute) ==> ends(args, review) == (
        if args.dry_run {
            Ending::Planned
        } else {
            Ending::Executed
        }),
        review == Some(AppAction::Quit) || review == Some(AppAction::Continue) ==> ends(
            args,
            review,
        ) == Ending::Left,
{
}

/// Nothing is created or removed by a dry run, nor after a review that was
/// not left with a request to execute.
pub proof fn law_execution_is_asked_for(args: PortArgs, review: Option<AppAction>)
    ensures
        ends(args, review) == Ending::Executed ==> !args.dry_run && (review is None || review
            == Some(AppAction::Execute)),
{
}

// ---------------------------------------------------------------------------
// Deciding without a review
// ---------------------------------------------------------------------------

/// Whether `d` is what `--auto` decides for a finding: a finding to be ported
/// has its prefilled draft, and stays undecided where it has none.
pub open spec fn is_auto_decision(
    auto: AutoDecision,
    f: model::FindingView,
    commit: Seq<char>,
    d: Option<Decision>,
) -> bool {
    match auto {
        AutoDecision::Skip => d == Some(Decision::Skip),
        AutoDecision::Delete => d == Some(Decision::Delete),
        AutoDecision::Port => match tui::prefilled(f, commit) {
            Some(view) => d matches Some(Decision::Port(draft)) && draft@ == view,
            None => d is None,
        },
    }
}

/// `--auto` decides every finding the same way: skipping and deleting always,
/// porting with the prefilled draft wherever the matched comment has a text.
pub proof fn law_auto_decides_alike(
    auto: AutoDecision,
    f: model::FindingView,
    commit: Seq<char>,
    d: Option<Decision>,
)
    requires
        is_auto_decision(auto, f, commit, d),
        0 <= f.primary < f.run.len(),
    ensures
        auto is Skip ==> d is Some && d->0 is Skip,
        auto is Delete ==> d is Some && d->0 is Delete,
        auto is Port && f.run[f.primary].text.len() == 0 ==> d is None,
        auto is Port && f.run[f.primary].text.len() > 0 ==> (d matches Some(Decision::Port(draft))
            && tui::prefilled(f, commit) == Some(draft@)),
{
}

/// Decides every finding as `--auto` says.
pub fn auto_decide(session: &mut Session, auto: AutoDecision)
    requires
        old(session).wf(),
        scan::all_wf(old(session).findings@),
    ensures
        final(session).wf(),
        final(session).same_findings(*old(session)),
        final(session).cursor == old(session).cursor,
        forall|i: int|
            0 <= i < old(session).findings@.len() ==> is_auto_decision(
                auto,
                (#[trigger] old(session).findings@[i])@,
                old(session).commit@,
                final(session).decisions@[i],
            ),
{
    let len: usize = session.findings.len();
    let mut i: usize = 0;
    while i < len
        invariant
            i <= len,
            len == old(session).findings@.len(),
            session.wf(),
            session.same_findings(*old(session)),
            session.cursor == old(session).cursor,
            scan::all_wf(old(session).findings@),
            forall|k: int|
                0 <= k < i ==> is_auto_decision(
                    auto,
                    (#[trigger] old(session).findings@[k])@,
                    old(session).commit@,
                    session.decisions@[k],
                ),
        decreases len - i,
    {
        assert(session.findings@[i as int]@.wf());
        match auto {
            AutoDecision::Skip => {
                session.set_decision(i, Decision::Skip);
            },
            AutoDecision::Delete => {
                session.set_decision(i, Decision::Delete);
            },
            AutoDecision::Port => {
                match tui::prefill_draft(&session.findings[i], session.commit.as_str()) {
                    Some(draft) => {
                        session.set_decision(i, Decision::Port(draft));
                    },
                    None => {
                        session.clear_decision(i);
                    },
                }
            },
        }
        i += 1;
    }
}

// ---------------------------------------------------------------------------
// The plan
// ---------------------------------------------------------------------------

/// What is done for a finding.
pub open spec fn action_of(d: Option<Decision>) -> Seq<char> {
    match d {
        Some(d) => session::label_of(d),
        None => "skip"@,
    }
}

/// What is done for a finding; undecided findings are skipped.
fn action_label(d: &Option<Decision>) -> (r: &'static str)
    ensures
        r@ == action_of(*d),
{
    match d {
        Some(d) => d.label(),
        None => "skip",
    }
}

/// The line of a finding in the plan: the action, the finding, and the title
/// of the issue to be created.
pub open spec fn plan_line(f: model::FindingView, d: Option<Decision>) -> Seq<char> {
    action_of(d) + " "@ + render::header_text(
        f.run[0].path,
        f.run[f.primary].line as nat,
        f.category,
        false,
    ) + (match d {
        Some(Decision::Port(draft)) => " - "@ + draft.title@,
        _ => Seq::empty(),
    }) + "\n"@
}

/// The first `k` lines of the plan.
pub open spec fn plan_upto(
    fs: Seq<model::FindingView>,
    ds: Seq<Option<Decision>>,
    k: int,
) -> Seq<char>
    decreases k,
{
    if k <= 0 {
        Seq::empty()
    } else {
        plan_upto(fs, ds, k - 1) + plan_line(fs[k - 1], ds[k - 1])
    }
}

/// The plan has one line per finding, in order; a line says what is done, to
/// which comment, and, for an issue to be created, its title.
pub proof fn law_the_plan_lists_every_finding(
    fs: Seq<model::FindingView>,
    ds: Seq<Option<Decision>>,
    n: int,
    i: int,
)
    requires
        0 <= n <= fs.len(),
        fs.len() == ds.len(),
        0 <= i < fs.len(),
    ensures
        plan_upto(fs, ds, n) == Seq::new(n as nat, |k: int| plan_line(fs[k], ds[k])).flatten(),
        ({
            let place = fs[i].run[0].path + ":"@ + text::decimal(
                fs[i].run[fs[i].primary].line as nat,
            ) + ": "@ + fs[i].category;
            plan_line(fs[i], ds[i]) == (match ds[i] {
                Some(Decision::Port(draft)) => "port "@ + place + " - "@ + draft.title@ + "\n"@,
                Some(Decision::Delete) => "delete "@ + place + "\n"@,
                Some(Decision::Skip) => "skip "@ + place + "\n"@,
                None => "skip "@ + place + "\n"@,
            })
        }),
    decreases n,
{
    if n > 0 {
        law_the_plan_lists_every_finding(fs, ds, n - 1, i);
        let less = Seq::new((n - 1) as nat, |k: int| plan_line(fs[k], ds[k]));
        let all = Seq::new(n as nat, |k: int| plan_line(fs[k], ds[k]));
        assert(all == less.push(plan_line(fs[n - 1], ds[n - 1])));
        less.lemma_flatten_push(plan_line(fs[n - 1], ds[n - 1]));
    }
    reveal_strlit("port ");
    reveal_strlit("port");
    reveal_strlit("skip ");
    reveal_strlit("skip");
    reveal_strlit("delete ");
    reveal_strlit("delete");
    reveal_strlit(" ");
    assert("port"@ + " "@ == "port "@);
    assert("skip"@ + " "@ == "skip "@);
    assert("delete"@ + " "@ == "delete "@);
    let place = fs[i].run[0].path + ":"@ + text::decimal(fs[i].run[fs[i].primary].line as nat)
        + ": "@ + fs[i].category;
    assert(render::header_text(
        fs[i].run[0].path,
        fs[i].run[fs[i].primary].line as nat,
        fs[i].category,
        false,
    ) == place);
    match ds[i] {
        Some(Decision::Port(draft)) => {
            assert("port"@ + " "@ + place + (" - "@ + draft.title@) + "\n"@ == "port "@ + place
                + " - "@ + draft.title@ + "\n"@);
        },
        _ => {
            assert(action_of(ds[i]) + " "@ + place + Seq::<char>::empty() + "\n"@ == action_of(ds[i])
                + " "@ + place + "\n"@);
        },
    }
}

/// The plan of a session, one line per finding (`--dry-run`).
pub fn plan_text(session: &Session) -> (r: String)
    requires
        session.wf(),
        scan::all_wf(session.findings@),
    ensures
        r@ == plan_upto(
            order::views(session.findings@),
            session.decisions@,
            session.findings@.len() as int,
        ),
{
    let ghost fs = order::views(session.findings@);
    let mut out = String::new();
    let mut i: usize = 0;
    while i < session.findings.len()
        invariant
            i <= session.findings.len(),
            session.wf(),
            scan::all_wf(session.findings@),
            fs == order::views(session.findings@),
            out@ == plan_upto(fs, session.decisions@, i as int),
        decreases session.findings.len() - i,
    {
        let finding = &session.findings[i];
        assert(fs[i as int] == finding@ && finding@.wf());
        let ghost before = out@;
        out.append(action_label(&session.decisions[i]));
        out.append(" ");
        let header = render::render_finding_header(
            finding.path().as_str(),
            finding.line(),
            finding.category.as_str(),
            false,
        );
        out.append(header.as_str());
        let ghost head = out@;
        match &session.decisions[i] {
            Some(Decision::Port(draft)) => {
                out.append(" - ");
                out.append(draft.title.as_str());
            },
            _ => {},
        }
        out.append("\n");
        assert(out@ == before + plan_line(finding@, session.decisions@[i as int]));
        i += 1;
    }
    out
}

// ---------------------------------------------------------------------------
// The run
// ---------------------------------------------------------------------------

/// What became of a finding.
#[derive(Debug, PartialEq, Eq)]
pub struct PortOutcome {
    /// Repository-relative path of the finding.
    pub path: String,
    /// 1-based line of the matched comment.
    pub line: usize,
    /// The matched category.
    pub category: String,
    /// `port`, `delete` or `skip`.
    pub action: &'static str,
    /// The issue that was created.
    pub issue: Option<IssueCreated>,
    /// Whether the comment was removed.
    pub removed: bool,
    /// What went wrong.
    pub error: Option<String>,
}

/// The content of a [`PortOutcome`].
#[verifier::ext_equal]
pub struct OutcomeView {
    pub path: Seq<char>,
    pub line: int,
    pub category: Seq<char>,
    pub action: Seq<char>,
    pub issue: Option<forge::IssueView>,
    pub removed: bool,
    pub error: Option<Seq<char>>,
}

impl View for PortOutcome {
    type V = OutcomeView;

    open spec fn view(&self) -> OutcomeView {
        OutcomeView {
            path: self.path@,
            line: self.line as int,
            category: self.category@,
            action: self.action@,
            issue: match self.issue {
                Some(issue) => Some(issue@),
                None => None,
            },
            removed: self.removed,
            error: matcher::text_option(self.error),
        }
    }
}

impl OutcomeView {
    /// Nothing happened yet.
    pub open spec fn is_untouched(self) -> bool {
        self.issue is None && !self.removed && self.error is None
    }

    /// The issue was created.
    pub open spec fn with_issue(self, issue: forge::IssueView) -> OutcomeView {
        OutcomeView { issue: Some(issue), ..self }
    }

    /// The comment was removed.
    pub open spec fn with_removal(self) -> OutcomeView {
        OutcomeView { removed: true, ..self }
    }

    /// Something went wrong.
    pub open spec fn with_error(self, error: Seq<char>) -> OutcomeView {
        OutcomeView { error: Some(error), ..self }
    }
}

/// What a finding's outcome is before anything happened.
pub open spec fn fresh_outcome(f: model::FindingView, d: Option<Decision>) -> OutcomeView {
    OutcomeView {
        path: f.run[0].path,
        line: f.run[f.primary].line,
        category: f.category,
        action: action_of(d),
        issue: None,
        removed: false,
        error: None,
    }
}

/// What a run waits for.
#[derive(Debug, Clone, Copy, PartialEq, Eq, Structural)]
pub enum Phase {
    /// Nothing.
    Idle,
    /// The answer to an issue request.
    Creating,
    /// The answer to a removal request.
    Removing,
}

/// What a run asks for next.
#[derive(Debug, PartialEq, Eq)]
pub enum PortRequest {
    /// Create the issue for a finding, then call [`PortRun::issue_done`].
    CreateIssue {
        /// The index of the finding.
        index: usize,
        /// The issue to create.
        draft: IssueDraft,
    },
    /// Remove the comments of a finding (see [`PortRun::remove_comment`]),
    /// then call [`PortRun::removal_done`].
    RemoveComment {
        /// The index of the finding.
        index: usize,
        /// The file, relative to the repository root.
        path: String,
    },
    /// Every finding is done.
    Finished,
}

/// The content of a [`PortRequest`].
pub enum RequestView {
    CreateIssue(int, draft::DraftView),
    RemoveComment(int, Seq<char>),
    Finished,
}

impl View for PortRequest {
    type V = RequestView;

    open spec fn view(&self) -> RequestView {
        match self {
            PortRequest::CreateIssue { index, draft } => RequestView::CreateIssue(
                *index as int,
                draft@,
            ),
            PortRequest::RemoveComment { index, path } => RequestView::RemoveComment(
                *index as int,
                path@,
            ),
            PortRequest::Finished => RequestView::Finished,
        }
    }
}

/// The execution of a session.
#[derive(Debug)]
pub struct PortRun {
    /// The reviewed session.
    pub session: Session,
    /// The snapshot of each finding's file, by finding index.
    pub snapshots: Vec<FileSnapshot>,
    /// The findings from this index on are done; while the run waits for an
    /// answer, the finding before it is in progress.
    pub next: usize,
    /// What the run waits for.
    pub phase: Phase,
    /// What became of each finding.
    pub outcomes: Vec<PortOutcome>,
}

/// The state of a [`PortRun`].
#[verifier::ext_equal]
pub struct RunView {
    pub findings: Seq<model::FindingView>,
    pub decisions: Seq<Option<Decision>>,
    pub digests: Seq<Seq<char>>,
    pub next: int,
    pub phase: Phase,
    pub outcomes: Seq<OutcomeView>,
}

impl View for PortRun {
    type V = RunView;

    open spec fn view(&self) -> RunView {
        RunView {
            findings: order::views(self.session.findings@),
            decisions: self.session.decisions@,
            digests: self.snapshots@.map_values(|s: FileSnapshot| s.sha256@),
            next: self.next as int,
            phase: self.phase,
            outcomes: order::views(self.outcomes@),
        }
    }
}

/// Whether there is something to do for a finding.
pub open spec fn acts(d: Option<Decision>) -> bool {
    session::is_port(d) || session::is_delete(d)
}

/// Whether there is something to do for a finding.
fn has_work(d: &Option<Decision>) -> (r: bool)
    ensures
        r == acts(*d),
{
    match d {
        Some(Decision::Port(_)) => true,
        Some(Decision::Delete) => true,
        _ => false,
    }
}

/// The number of findings up to the last of the first `n` for which there is
/// something to do.
pub open spec fn last_to_do(ds: Seq<Option<Decision>>, n: int) -> int
    decreases n,
{
    if n <= 0 {
        0
    } else if acts(ds[n - 1]) {
        n
    } else {
        last_to_do(ds, n - 1)
    }
}

impl RunView {
    /// The finding in progress.
    pub open spec fn at(self) -> int {
        self.next - 1
    }

    /// The state with the outcome of the finding in progress replaced.
    pub open spec fn record(self, o: OutcomeView) -> RunView {
        RunView { outcomes: self.outcomes.update(self.at(), o), ..self }
    }

    /// The state once the finding in progress is done.
    pub open spec fn close(self) -> RunView {
        RunView { next: self.next - 1, phase: Phase::Idle, ..self }
    }

    /// The state when the next request is made: on the next finding for which
    /// there is something to do, unless one is in progress.
    pub open spec fn advance(self) -> RunView {
        if self.phase != Phase::Idle {
            self
        } else {
            let n = last_to_do(self.decisions, self.next);
            let phase = if n <= 0 {
                Phase::Idle
            } else if session::is_port(self.decisions[n - 1]) {
                Phase::Creating
            } else {
                Phase::Removing
            };
            RunView { next: n, phase, ..self }
        }
    }

    /// What the state asks for.
    pub open spec fn request(self) -> RequestView {
        match self.phase {
            Phase::Idle => RequestView::Finished,
            Phase::Creating => match self.decisions[self.at()] {
                Some(Decision::Port(draft)) => RequestView::CreateIssue(self.at(), draft@),
                _ => RequestView::Finished,
            },
            Phase::Removing => RequestView::RemoveComment(
                self.at(),
                self.findings[self.at()].run[0].path,
            ),
        }
    }

    /// The state after the answer to an issue request: with the issue, the
    /// comment can go; without it, the comment stays.
    pub open spec fn after_issue(self, answer: Result<forge::IssueView, Seq<char>>) -> RunView {
        match answer {
            Ok(issue) => RunView {
                phase: Phase::Removing,
                ..self.record(self.outcomes[self.at()].with_issue(issue))
            },
            Err(error) => self.record(self.outcomes[self.at()].with_error(error)).close(),
        }
    }

    /// The state after the answer to a removal request: the digest of what
    /// the file now holds, which the other findings in the same file are
    /// checked against, or why the comment stays.
    pub open spec fn after_removal(self, answer: Result<Seq<char>, Seq<char>>) -> RunView {
        match answer {
            Ok(digest) => RunView {
                digests: Seq::new(
                    self.digests.len(),
                    |i: int|
                        if self.findings[i].run[0].path == self.findings[self.at()].run[0].path {
                            digest
                        } else {
                            self.digests[i]
                        },
                ),
                ..self.record(self.outcomes[self.at()].with_removal()).close()
            },
            Err(error) => self.record(self.outcomes[self.at()].with_error(error)).close(),
        }
    }

    /// The work left: it shrinks with every answer.
    pub open spec fn work(self) -> int {
        2 * self.next - (if self.phase == Phase::Removing {
            1int
        } else {
            0int
        })
    }

    /// What holds of finding `i` in every state of a run.
    pub open spec fn is_disciplined(self, i: int) -> bool {
        let o = self.outcomes[i];
        let d = self.decisions[i];
        let open = i < self.at() || (i == self.at() && !(self.phase == Phase::Removing
            && session::is_port(d)));
        &&& o.issue is Some ==> session::is_port(d)
        &&& o.removed ==> session::is_delete(d) || o.issue is Some
        &&& !acts(d) ==> o.is_untouched()
        &&& open ==> o.is_untouched()
        &&& i >= self.next && acts(d) ==> o.removed || o.error is Some
        &&& i >= self.next && session::is_port(d) ==> o.issue is Some || o.error is Some
    }

    /// What holds in every state of a run.
    pub open spec fn wf(self) -> bool {
        &&& self.decisions.len() == self.findings.len()
        &&& self.digests.len() == self.findings.len()
        &&& self.outcomes.len() == self.findings.len()
        &&& 0 <= self.next <= self.findings.len()
        &&& self.phase != Phase::Idle ==> self.next > 0
        &&& self.phase == Phase::Creating ==> session::is_port(self.decisions[self.at()])
        &&& self.phase == Phase::Removing ==> acts(self.decisions[self.at()])
        &&& self.phase == Phase::Removing ==> !self.outcomes[self.at()].removed
            && self.outcomes[self.at()].error is None
        &&& self.phase == Phase::Removing && session::is_port(self.decisions[self.at()])
            ==> self.outcomes[self.at()].issue is Some
        &&& forall|i: int|
            #![trigger self.outcomes[i]]
            0 <= i < self.findings.len() ==> self.is_disciplined(i)
    }
}

proof fn lemma_last_to_do(ds: Seq<Option<Decision>>, n: int)
    requires
        0 <= n <= ds.len(),
    ensures
        0 <= last_to_do(ds, n) <= n,
        last_to_do(ds, n) > 0 ==> acts(ds[last_to_do(ds, n) - 1]),
        forall|i: int| last_to_do(ds, n) <= i < n ==> !acts(#[trigger] ds[i]),
    decreases n,
{
    if n > 0 && !acts(ds[n - 1]) {
        lemma_last_to_do(ds, n - 1);
    }
}

/// A run stays disciplined whatever is answered.
pub proof fn law_run_stays_disciplined(
    v: RunView,
    issue: Result<forge::IssueView, Seq<char>>,
    removal: Result<Seq<char>, Seq<char>>,
)
    requires
        v.wf(),
    ensures
        v.advance().wf(),
        v.phase == Phase::Creating ==> v.after_issue(issue).wf(),
        v.phase == Phase::Removing ==> v.after_removal(removal).wf(),
{
    lemma_last_to_do(v.decisions, v.next);
    let a = v.advance();
    assert forall|i: int| #![trigger a.outcomes[i]] 0 <= i < a.findings.len() implies a.is_disciplined(
        i,
    ) by {
        assert(v.is_disciplined(i)) by {
            let o = v.outcomes[i];
        }
    }
    if v.phase == Phase::Creating {
        let w = v.after_issue(issue);
        assert(v.is_disciplined(v.at())) by {
            let o = v.outcomes[v.at()];
        }
        assert forall|i: int| #![trigger w.outcomes[i]] 0 <= i < w.findings.len() implies w.is_disciplined(
            i,
        ) by {
            assert(v.is_disciplined(i)) by {
                let o = v.outcomes[i];
            }
        }
    }
    if v.phase == Phase::Removing {
        let w = v.after_removal(removal);
        assert(v.is_disciplined(v.at())) by {
            let o = v.outcomes[v.at()];
        }
        assert forall|i: int| #![trigger w.outcomes[i]] 0 <= i < w.findings.len() implies w.is_disciplined(
            i,
        ) by {
            assert(v.is_disciplined(i)) by {
                let o = v.outcomes[i];
            }
        }
    }
}

/// A ported finding's comment is asked to be removed only once its issue
/// exists, and no finding is asked about that was not ported or deleted.
pub proof fn law_issue_comes_first(v: RunView)
    requires
        v.wf(),
    ensures
        v.advance().request() matches RequestView::RemoveComment(i, _) ==> {
            &&& 0 <= i < v.findings.len()
            &&& acts(v.decisions[i])
            &&& session::is_port(v.decisions[i]) ==> v.outcomes[i].issue is Some
        },
        v.advance().request() matches RequestView::CreateIssue(i, _) ==> 0 <= i < v.findings.len()
            && session::is_port(v.decisions[i]) && v.outcomes[i].is_untouched(),
{
    lemma_last_to_do(v.decisions, v.next);
    law_run_stays_disciplined(v, Err(Seq::empty()), Err(Seq::empty()));
    let a = v.advance();
    if a.phase != Phase::Idle {
        assert(a.is_disciplined(a.at())) by {
            let o = a.outcomes[a.at()];
        }
    }
}

/// In every state, a comment was removed only where the finding was deleted
/// or its issue was created, and a skipped or undecided finding was left
/// alone.
pub proof fn law_nothing_is_lost(v: RunView, i: int)
    requires
        v.wf(),
        0 <= i < v.findings.len(),
    ensures
        v.outcomes[i].removed ==> session::is_delete(v.decisions[i]) || (session::is_port(
            v.decisions[i],
        ) && v.outcomes[i].issue is Some),
        !acts(v.decisions[i]) ==> v.outcomes[i].is_untouched(),
{
    assert(v.is_disciplined(i)) by {
        let o = v.outcomes[i];
    }
}

/// A finished run has dealt with every finding: the comment is gone or the
/// outcome says why not, and a ported finding has its issue or says why not.
pub proof fn law_finished_is_complete(v: RunView, i: int)
    requires
        v.wf(),
        v.advance().request() is Finished,
        0 <= i < v.findings.len(),
        acts(v.decisions[i]),
    ensures
        v.outcomes[i].removed || v.outcomes[i].error is Some,
        session::is_port(v.decisions[i]) ==> v.outcomes[i].issue is Some || v.outcomes[i].error is Some,
{
    lemma_last_to_do(v.decisions, v.next);
    assert(v.is_disciplined(i)) by {
        let o = v.outcomes[i];
    }
}

/// Every answer brings a run closer to its end.
pub proof fn law_run_ends(
    v: RunView,
    issue: Result<forge::IssueView, Seq<char>>,
    removal: Result<Seq<char>, Seq<char>>,
)
    requires
        v.wf(),
    ensures
        v.advance().work() <= v.work(),
        v.work() >= 0,
        v.phase == Phase::Creating ==> v.after_issue(issue).work() < v.work(),
        v.phase == Phase::Removing ==> v.after_removal(removal).work() < v.work(),
{
    lemma_last_to_do(v.decisions, v.next);
}

/// A request for an issue is made for a finding to be ported, with the very
/// draft that was decided on; a request for a removal is made for a finding
/// to be ported or deleted, in its own file.
pub proof fn law_requests_carry_the_decision(v: RunView)
    requires
        v.wf(),
    ensures
        match v.advance().request() {
            RequestView::CreateIssue(i, d) => {
                &&& 0 <= i < v.findings.len()
                &&& v.decisions[i] matches Some(Decision::Port(draft))
                &&& d.category == draft.category@
                &&& d.path == draft.path@
                &&& d.commit == draft.commit@
                &&& d.title == draft.title@
                &&& d.description == draft.description@
            },
            RequestView::RemoveComment(i, path) => {
                &&& 0 <= i < v.findings.len()
                &&& v.decisions[i] is Some
                &&& v.decisions[i]->0 is Port || v.decisions[i]->0 is Delete
                &&& path == v.findings[i].run[0].path
            },
            RequestView::Finished => true,
        },
{
    lemma_last_to_do(v.decisions, v.next);
    law_run_stays_disciplined(v, Err(Seq::empty()), Err(Seq::empty()));
}

/// Findings are dealt with from the last one up, so that no removal moves a
/// comment that is still to be removed: when a finding is asked about, it is
/// not done itself, and every later one to be ported or deleted is, for good
/// or with a reason.
pub proof fn law_requests_come_from_the_last_finding_up(v: RunView, i: int, j: int)
    requires
        v.wf(),
        match v.advance().request() {
            RequestView::CreateIssue(k, _) => k == i,
            RequestView::RemoveComment(k, _) => k == i,
            RequestView::Finished => false,
        },
    ensures
        0 <= i < v.findings.len(),
        !v.outcomes[i].removed && v.outcomes[i].error is None,
        v.decisions[i]->0 is Port && v.advance().request() is CreateIssue ==> v.outcomes[i].issue
            is None,
        i < j < v.findings.len() && (v.decisions[j] matches Some(d) && !(d is Skip))
            ==> v.outcomes[j].removed || v.outcomes[j].error is Some,
{
    lemma_last_to_do(v.decisions, v.next);
    law_run_stays_disciplined(v, Err(Seq::empty()), Err(Seq::empty()));
    let a = v.advance();
    assert(a.is_disciplined(i)) by {
        let o = a.outcomes[i];
    }
    if i < j < v.findings.len() {
        assert(a.is_disciplined(j)) by {
            let o = a.outcomes[j];
        }
    }
}

/// A run asks as long as there is something to do: a finding to be ported or
/// deleted with neither a removal nor an error is asked about.
pub proof fn law_unfinished_findings_are_asked_about(v: RunView, i: int)
    requires
        v.wf(),
        0 <= i < v.findings.len(),
        v.decisions[i] matches Some(d) && !(d is Skip),
        !v.outcomes[i].removed,
        v.outcomes[i].error is None,
    ensures
        !(v.advance().request() is Finished),
{
    if v.advance().request() is Finished {
        law_finished_is_complete(v, i);
    }
}

/// The answer to an issue request is recorded for the finding that was asked
/// about, and for no other; with the issue its comment is asked to be removed
/// next, without it the comment is left alone.
pub proof fn law_issues_are_recorded(
    v: RunView,
    answer: Result<forge::IssueView, Seq<char>>,
    i: int,
    d: draft::DraftView,
    j: int,
)
    requires
        v.wf(),
        v.phase == Phase::Creating,
        v.request() == RequestView::CreateIssue(i, d),
        0 <= j < v.findings.len(),
    ensures
        ({
            let w = v.after_issue(answer);
            &&& w.findings == v.findings && w.decisions == v.decisions && w.digests == v.digests
            &&& j != i ==> w.outcomes[j] == v.outcomes[j]
            &&& !w.outcomes[i].removed
            &&& w.outcomes[i].path == v.outcomes[i].path && w.outcomes[i].line
                == v.outcomes[i].line
            &&& w.outcomes[i].category == v.outcomes[i].category && w.outcomes[i].action
                == v.outcomes[i].action
            &&& match answer {
                Ok(issue) => {
                    &&& w.outcomes[i].issue == Some(issue)
                    &&& w.outcomes[i].error is None
                    &&& w.advance().request() == RequestView::RemoveComment(
                        i,
                        v.findings[i].run[0].path,
                    )
                },
                Err(error) => {
                    &&& w.outcomes[i].issue is None
                    &&& w.outcomes[i].error == Some(error)
                    &&& match w.advance().request() {
                        RequestView::CreateIssue(k, _) => k < i,
                        RequestView::RemoveComment(k, _) => k < i,
                        RequestView::Finished => true,
                    }
                },
            }
        }),
{
    assert(v.is_disciplined(i)) by {
        let o = v.outcomes[i];
    }
    law_run_stays_disciplined(v, answer, Err(Seq::empty()));
    lemma_last_to_do(v.decisions, v.after_issue(answer).next);
}

/// The answer to a removal request is recorded for the finding that was asked
/// about; from then on every finding in the same file is checked against what
/// was written, and every other finding against what it was checked before.
pub proof fn law_removals_are_recorded(
    v: RunView,
    answer: Result<Seq<char>, Seq<char>>,
    i: int,
    path: Seq<char>,
    j: int,
)
    requires
        v.wf(),
        v.phase == Phase::Removing,
        v.request() == RequestView::RemoveComment(i, path),
        0 <= j < v.findings.len(),
    ensures
        ({
            let w = v.after_removal(answer);
            let o = w.outcomes[i];
            &&& w.findings == v.findings && w.decisions == v.decisions
            &&& j != i ==> w.outcomes[j] == v.outcomes[j]
            &&& o.issue == v.outcomes[i].issue && o.path == v.outcomes[i].path && o.line
                == v.outcomes[i].line
            &&& o.category == v.outcomes[i].category && o.action == v.outcomes[i].action
            &&& match answer {
                Ok(digest) => {
                    &&& o.removed && o.error is None
                    &&& v.findings[j].run[0].path == path ==> w.digests[j] == digest
                    &&& v.findings[j].run[0].path != path ==> w.digests[j] == v.digests[j]
                },
                Err(error) => !o.removed && o.error == Some(error) && w.digests == v.digests,
            }
            &&& match w.advance().request() {
                RequestView::CreateIssue(k, _) => k < i,
                RequestView::RemoveComment(k, _) => k < i,
                RequestView::Finished => true,
            }
        }),
{
    law_run_stays_disciplined(v, Err(Seq::empty()), answer);
    lemma_last_to_do(v.decisions, v.after_removal(answer).next);
}

/// A run starts with an outcome for each finding that names its place, its
/// category and what is to be done, and of which nothing has happened yet.
pub proof fn law_outcomes_start_fresh(f: model::FindingView, d: Option<Decision>)
    ensures
        ({
            let o = fresh_outcome(f, d);
            &&& o.path == f.run[0].path
            &&& o.line == f.run[f.primary].line
            &&& o.category == f.category
            &&& o.issue is None && !o.removed && o.error is None
            &&& o.action == (match d {
                Some(Decision::Port(_)) => "port"@,
                Some(Decision::Delete) => "delete"@,
                Some(Decision::Skip) => "skip"@,
                None => "skip"@,
            })
        }),
{
}

/// The content of the answer to an issue request.
pub open spec fn issue_answer(r: Result<IssueCreated, String>) -> Result<
    forge::IssueView,
    Seq<char>,
> {
    match r {
        Ok(issue) => Ok(issue@),
        Err(error) => Err(error@),
    }
}

/// The content of the answer to a removal request: the digest of what was
/// written.
pub open spec fn removal_answer(r: Result<&[u8], String>) -> Result<Seq<char>, Seq<char>> {
    match r {
        Ok(bytes) => Ok(remove::sha256_hex(bytes@)),
        Err(error) => Err(error@),
    }
}

impl PortRun {
    /// What holds of a run between calls.
    pub open spec fn wf(self) -> bool {
        &&& self.session.wf()
        &&& scan::all_wf(self.session.findings@)
        &&& self@.wf()
    }

    /// Starts the execution of a session. `snapshots` are those of the
    /// findings' files, in the order of the findings.
    pub fn new(session: Session, snapshots: Vec<FileSnapshot>) -> (r: Self)
        requires
            session.wf(),
            scan::all_wf(session.findings@),
            snapshots@.len() == session.findings@.len(),
        ensures
            r.wf(),
            r.session == session,
            r.snapshots == snapshots,
            r.next == session.findings@.len(),
            r.phase == Phase::Idle,
            r@.outcomes == Seq::new(
                session.findings@.len(),
                |i: int| fresh_outcome(session.findings@[i]@, session.decisions@[i]),
            ),
    {
        let ghost all = Seq::new(
            session.findings@.len(),
            |i: int| fresh_outcome(session.findings@[i]@, session.decisions@[i]),
        );
        let mut outcomes: Vec<PortOutcome> = Vec::new();
        let mut i: usize = 0;
        while i < session.findings.len()
            invariant
                i <= session.findings.len(),
                session.wf(),
                scan::all_wf(session.findings@),
                all == Seq::new(
                    session.findings@.len(),
                    |i: int| fresh_outcome(session.findings@[i]@, session.decisions@[i]),
                ),
                order::views(outcomes@) == all.take(i as int),
            decreases session.findings.len() - i,
        {
            let finding = &session.findings[i];
            assert(session.findings@[i as int]@.wf());
            let outcome = PortOutcome {
                path: finding.path().clone(),
                line: finding.line(),
                category: finding.category.clone(),
                action: action_label(&session.decisions[i]),
                issue: None,
                removed: false,
                error: None,
            };
            let ghost before = order::views(outcomes@);
            outcomes.push(outcome);
            proof {
                assert(order::views(outcomes@) == before.push(outcome@));
                assert(all.take(i + 1) == all.take(i as int).push(all[i as int]));
            }
            i += 1;
        }
        assert(all.take(all.len() as int) == all);
        let next: usize = session.findings.len();
        let run = PortRun { session, snapshots, next, phase: Phase::Idle, outcomes };
        assert forall|k: int|
            #![trigger run@.outcomes[k]]
            0 <= k < run@.findings.len() implies run@.is_disciplined(k) by {
            assert(run@.outcomes[k] == all[k]);
        }
        run
    }

    /// What to do next: the same request is made until it is answered.
    pub fn step(&mut self) -> (r: PortRequest)
        requires
            old(self).wf(),
        ensures
            final(self).wf(),
            final(self)@ == old(self)@.advance(),
            final(self).session == old(self).session,
            r@ == old(self)@.advance().request(),
    {
        proof {
            law_run_stays_disciplined(self@, Err(Seq::empty()), Err(Seq::empty()));
        }
        match self.phase {
            Phase::Idle => {
                let mut n: usize = self.next;
                while n > 0 && !has_work(&self.session.decisions[n - 1])
                    invariant
                        n <= self.next <= self.session.decisions.len(),
                        last_to_do(self.session.decisions@, self.next as int) == last_to_do(
                            self.session.decisions@,
                            n as int,
                        ),
                    decreases n,
                {
                    n -= 1;
                }
                self.next = n;
                if n > 0 {
                    self.phase = match &self.session.decisions[n - 1] {
                        Some(Decision::Port(_)) => Phase::Creating,
                        _ => Phase::Removing,
                    };
                }
            },
            _ => {},
        }
        match self.phase {
            Phase::Idle => PortRequest::Finished,
            Phase::Creating => match &self.session.decisions[self.next - 1] {
                Some(Decision::Port(draft)) => PortRequest::CreateIssue {
                    index: self.next - 1,
                    draft: draft.clone(),
                },
                _ => PortRequest::Finished,
            },
            Phase::Removing => {
                let index: usize = self.next - 1;
                assert(self.session.findings@[index as int]@.wf());
                PortRequest::RemoveComment {
                    index,
                    path: self.session.findings[index].path().clone(),
                }
            },
        }
    }

    /// Replaces the outcome of the finding in progress.
    fn record(&mut self, outcome: PortOutcome)
        requires
            0 < old(self).next <= old(self).outcomes@.len(),
        ensures
            final(self)@ == old(self)@.record(outcome@),
            final(self).session == old(self).session,
            final(self).snapshots == old(self).snapshots,
    {
        let ghost before = self.outcomes@;
        self.outcomes.set(self.next - 1, outcome);
        assert(order::views(self.outcomes@) == order::views(before).update(
            self.next - 1,
            outcome@,
        ));
    }

    /// Takes the answer to an issue request.
    pub fn issue_done(&mut self, answer: Result<IssueCreated, String>)
        requires
            old(self).wf(),
            old(self).phase == Phase::Creating,
        ensures
            final(self).wf(),
            final(self)@ == old(self)@.after_issue(issue_answer(answer)),
            final(self).session == old(self).session,
    {
        proof {
            law_run_stays_disciplined(self@, issue_answer(answer), Err(Seq::empty()));
        }
        let index: usize = self.next - 1;
        assert(self@.outcomes[index as int] == self.outcomes@[index as int]@);
        let mut outcome = clone_outcome(&self.outcomes[index]);
        match answer {
            Ok(issue) => {
                outcome.issue = Some(issue);
                self.record(outcome);
                self.phase = Phase::Removing;
            },
            Err(error) => {
                outcome.error = Some(error);
                self.record(outcome);
                self.next = index;
                self.phase = Phase::Idle;
            },
        }
    }

    /// The removal that is in progress, when its file holds `bytes`: what the
    /// file is to hold next, or why the comments stay. Each selected comment
    /// goes, and what stands between two of them stays.
    pub fn remove_comment(&self, bytes: &[u8]) -> (r: Result<RemovalOutcome, RemoveError>)
        requires
            self.wf(),
            self.phase == Phase::Removing,
        ensures
            remove::are_removals(
                self@.findings[self@.at()].run[0].path,
                bytes@,
                self@.findings[self@.at()].selected_each(),
                self@.digests[self@.at()],
                r,
            ),
    {
        let index: usize = self.next - 1;
        let finding = &self.session.findings[index];
        assert(finding@.wf());
        let ranges = finding.selected_ranges();
        assert(remove::byte_pairs(ranges@) == finding@.selected_each());
        apply_removals(finding.path().as_str(), bytes, &ranges, &self.snapshots[index])
    }

    /// Takes the answer to a removal request: what was written to the file,
    /// or why the comment stays.
    pub fn removal_done(&mut self, answer: Result<&[u8], String>)
        requires
            old(self).wf(),
            old(self).phase == Phase::Removing,
        ensures
            final(self).wf(),
            final(self)@ == old(self)@.after_removal(removal_answer(answer)),
            final(self).session == old(self).session,
    {
        proof {
            law_run_stays_disciplined(self@, Err(Seq::empty()), removal_answer(answer));
        }
        let index: usize = self.next - 1;
        assert(self@.outcomes[index as int] == self.outcomes@[index as int]@);
        let mut outcome = clone_outcome(&self.outcomes[index]);
        match answer {
            Ok(bytes) => {
                outcome.removed = true;
                self.resnapshot(index, bytes);
            },
            Err(error) => {
                outcome.error = Some(error);
            },
        }
        self.record(outcome);
        self.next = index;
        self.phase = Phase::Idle;
    }

    /// Snapshots the file of the finding at `index`, which now holds `bytes`,
    /// for every finding in it.
    fn resnapshot(&mut self, index: usize, bytes: &[u8])
        requires
            old(self).wf(),
            index < old(self)@.findings.len(),
        ensures
            final(self)@ == (RunView {
                digests: Seq::new(
                    old(self)@.digests.len(),
                    |i: int|
                        if old(self)@.findings[i].run[0].path
                            == old(self)@.findings[index as int].run[0].path {
                            remove::sha256_hex(bytes@)
                        } else {
                            old(self)@.digests[i]
                        },
                ),
                ..old(self)@
            }),
            final(self).session == old(self).session,
            final(self).outcomes == old(self).outcomes,
    {
        let ghost old_digests = self@.digests;
        let ghost fs = self@.findings;
        let ghost digest = remove::sha256_hex(bytes@);
        let ghost all = Seq::new(
            old_digests.len(),
            |i: int|
                if fs[i].run[0].path == fs[index as int].run[0].path {
                    digest
                } else {
                    old_digests[i]
                },
        );
        assert(self.session.findings@[index as int]@.wf());
        let path = self.session.findings[index].path().clone();
        let snapshot = FileSnapshot::capture(path.as_str(), bytes);
        let mut snapshots: Vec<FileSnapshot> = Vec::new();
        let mut i: usize = 0;
        while i < self.snapshots.len()
            invariant
                *self == *old(self),
                self.wf(),
                i <= self.snapshots.len(),
                old_digests == self@.digests,
                fs == self@.findings,
                index < fs.len(),
                path@ == fs[index as int].run[0].path,
                snapshot.sha256@ == digest,
                all == Seq::new(
                    old_digests.len(),
                    |i: int|
                        if fs[i].run[0].path == fs[index as int].run[0].path {
                            digest
                        } else {
                            old_digests[i]
                        },
                ),
                snapshots@.map_values(|s: FileSnapshot| s.sha256@) == all.take(i as int),
            decreases self.snapshots.len() - i,
        {
            assert(self.session.findings@[i as int]@.wf());
            assert(fs[i as int] == self.session.findings@[i as int]@);
            assert(old_digests[i as int] == self.snapshots@[i as int].sha256@);
            let entry = if text::same_text(
                self.session.findings[i].path().as_str(),
                path.as_str(),
            ) {
                snapshot.clone()
            } else {
                self.snapshots[i].clone()
            };
            let ghost before = snapshots@.map_values(|s: FileSnapshot| s.sha256@);
            snapshots.push(entry);
            proof {
                assert(snapshots@.map_values(|s: FileSnapshot| s.sha256@) == before.push(
                    entry.sha256@,
                ));
                assert(all.take(i + 1) == all.take(i as int).push(all[i as int]));
            }
            i += 1;
        }
        assert(all.take(all.len() as int) == all);
        self.snapshots = snapshots;
    }
}

/// A copy of an outcome.
fn clone_outcome(o: &PortOutcome) -> (r: PortOutcome)
    ensures
        r == *o,
{
    PortOutcome {
        path: o.path.clone(),
        line: o.line,
        category: o.category.clone(),
        action: o.action,
        issue: match &o.issue {
            Some(issue) => Some(issue.clone()),
            None => None,
        },
        removed: o.removed,
        error: crate::config::clone_option(&o.error),
    }
}

// ---------------------------------------------------------------------------
// The report
// ---------------------------------------------------------------------------

impl PortOutcome {
    /// The place of the finding: its path and line.
    pub open spec fn place(self) -> Seq<char> {
        self.path@ + ":"@ + text::decimal(self.line as nat)
    }

    /// The text of [`Self::message`].
    pub open spec fn text(self) -> Seq<char> {
        (match self.issue {
            Some(issue) => "created #"@ + text::decimal(issue.number as nat) + " "@ + issue.url@
                + "\n"@,
            None => Seq::empty(),
        }) + (if self.removed {
            "deleted comment at "@ + self.place() + "\n"@
        } else {
            match self.error {
                Some(error) => "kept comment at "@ + self.place() + ": "@ + error@ + "\n"@,
                None => "skipped "@ + self.place() + "\n"@,
            }
        })
    }

    /// What became of the finding, in words.
    pub fn message(&self) -> (r: String)
        ensures
            r@ == self.text(),
    {
        let mut s = String::new();
        match &self.issue {
            Some(issue) => {
                s.append("created #");
                let number = text::string_of(&text::decimal_digits(issue.number));
                s.append(number.as_str());
                s.append(" ");
                s.append(issue.url.as_str());
                s.append("\n");
            },
            None => {},
        }
        let ghost head = s@;
        let mut place = self.path.clone();
        place.append(":");
        let line = text::decimal_string(self.line);
        place.append(line.as_str());
        assert(place@ == self.place());
        if self.removed {
            s.append("deleted comment at ");
            s.append(place.as_str());
            s.append("\n");
            assert(s@ == head + ("deleted comment at "@ + place@ + "\n"@));
        } else {
            match &self.error {
                Some(error) => {
                    s.append("kept comment at ");
                    s.append(place.as_str());
                    s.append(": ");
                    s.append(error.as_str());
                    s.append("\n");
                    assert(s@ == head + ("kept comment at "@ + place@ + ": "@ + error@ + "\n"@));
                },
                None => {
                    s.append("skipped ");
                    s.append(place.as_str());
                    s.append("\n");
                    assert(s@ == head + ("skipped "@ + place@ + "\n"@));
                },
            }
        }
        s
    }
}

/// What became of the first `k` findings, in words.
pub open spec fn outcomes_text(outcomes: Seq<PortOutcome>, k: int) -> Seq<char>
    decreases k,
{
    if k <= 0 {
        Seq::empty()
    } else {
        outcomes_text(outcomes, k - 1) + outcomes[k - 1].text()
    }
}

/// The report tells of a finding that its issue was created, with number and
/// URL, exactly when it was, and then whether its comment was deleted, kept
/// for a reason, or skipped.
pub proof fn law_the_report_tells_what_happened(o: PortOutcome)
    ensures
        ({
            let place = o.path@ + ":"@ + text::decimal(o.line as nat);
            let tail = if o.removed {
                "deleted comment at "@ + place + "\n"@
            } else {
                match o.error {
                    Some(e) => "kept comment at "@ + place + ": "@ + e@ + "\n"@,
                    None => "skipped "@ + place + "\n"@,
                }
            };
            match o.issue {
                Some(issue) => o.text() == "created #"@ + text::decimal(issue.number as nat) + " "@
                    + issue.url@ + "\n"@ + tail,
                None => o.text() == tail,
            }
        }),
{
    match o.issue {
        Some(_) => {},
        None => {
            assert(o.text() == o.text().skip(0));
        },
    }
}

/// The report tells of every finding, in order.
pub proof fn law_the_report_lists_every_finding(outcomes: Seq<PortOutcome>, n: int)
    requires
        0 <= n <= outcomes.len(),
    ensures
        outcomes_text(outcomes, n) == Seq::new(n as nat, |k: int| outcomes[k].text()).flatten(),
    decreases n,
{
    if n > 0 {
        law_the_report_lists_every_finding(outcomes, n - 1);
        let less = Seq::new((n - 1) as nat, |k: int| outcomes[k].text());
        let all = Seq::new(n as nat, |k: int| outcomes[k].text());
        assert(all == less.push(outcomes[n - 1].text()));
        less.lemma_flatten_push(outcomes[n - 1].text());
    }
}

/// What became of every finding, in words, and that the port is done.
pub fn report_text(outcomes: &Vec<PortOutcome>) -> (r: String)
    ensures
        r@ == outcomes_text(outcomes@, outcomes@.len() as int) + "done\n"@,
{
    let mut out = String::new();
    let mut i: usize = 0;
    while i < outcomes.len()
        invariant
            i <= outcomes.len(),
            out@ == outcomes_text(outcomes@, i as int),
        decreases outcomes.len() - i,
    {
        let line = outcomes[i].message();
        out.append(line.as_str());
        i += 1;
    }
    out.append("done\n");
    out
}

} // verus!
