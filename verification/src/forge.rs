//! Issue-tracking forge backends.
//!
//! [`Forge`] is the seam between the interactive flow and the outside
//! world. [`GitHubForge`] drives the `gh` program; more backends can be
//! added behind the same trait without touching the session logic.

use crate::config;
use crate::config::ForgeConfig;
use crate::created;
use crate::draft;
use crate::draft::IssueDraft;
use crate::matcher;
use crate::process;
use crate::process::{ProcessOutput, ProcessRunner};
use crate::text;
use vstd::prelude::*;
use vstd::string::*;

verus! {

/// The mathematical content of an [`IssueCreated`].
#[verifier::ext_equal]
pub struct IssueView {
    pub number: int,
    pub url: Seq<char>,
}

/// A successfully created issue.
#[derive(Debug, PartialEq, Eq)]
pub struct IssueCreated {
    /// The issue number on the forge.
    pub number: u64,
    /// A URL to the issue.
    pub url: String,
}

impl View for IssueCreated {
    type V = IssueView;

    open spec fn view(&self) -> IssueView {
        IssueView { number: self.number as int, url: self.url@ }
    }
}

impl Clone for IssueCreated {
    fn clone(&self) -> (r: Self)
        ensures
            r == *self,
    {
        IssueCreated { number: self.number, url: self.url.clone() }
    }
}

/// A forge that can create issues from drafts.
pub trait Forge {
    /// Stable backend id (`github`, ...), shown in output and config.
    fn id(&self) -> &'static str;

    /// Creates the issue described by `draft`.
    fn create_issue(&mut self, draft: &IssueDraft) -> Result<IssueCreated, ForgeError>;
}

/// Errors produced while interacting with a forge.
#[derive(Debug, PartialEq, Eq)]
pub enum ForgeError {
    /// A backend command failed (non-zero exit).
    CommandFailed {
        /// The program that failed.
        program: String,
        /// The arguments it was given.
        args: String,
        /// Its stderr output.
        stderr: String,
    },
    /// The backend's output could not be parsed.
    Parse(String),
    /// The repository the backend operates on could not be determined.
    Repository(String),
    /// The configured forge id is not supported.
    Unsupported(String),
    /// A subprocess could not be spawned.
    Io {
        /// The program that failed to start.
        program: String,
        /// Why it could not be started.
        source: String,
    },
}

/// The content of a [`ForgeError`].
pub enum ForgeFault {
    CommandFailed { program: Seq<char>, args: Seq<char>, stderr: Seq<char> },
    Parse(Seq<char>),
    Repository(Seq<char>),
    Unsupported(Seq<char>),
    Io { program: Seq<char>, source: Seq<char> },
}

impl ForgeError {
    /// The content of the error.
    pub open spec fn fault(self) -> ForgeFault {
        match self {
            ForgeError::CommandFailed { program, args, stderr } => ForgeFault::CommandFailed {
                program: program@,
                args: args@,
                stderr: stderr@,
            },
            ForgeError::Parse(detail) => ForgeFault::Parse(detail@),
            ForgeError::Repository(detail) => ForgeFault::Repository(detail@),
            ForgeError::Unsupported(id) => ForgeFault::Unsupported(id@),
            ForgeError::Io { program, source } => ForgeFault::Io {
                program: program@,
                source: source@,
            },
        }
    }

    /// The text of [`Self::message`].
    pub open spec fn text(self) -> Seq<char> {
        match self {
            ForgeError::CommandFailed { program, args, stderr } => "command failed: "@ + program@
                + " "@ + args@ + ": "@ + stderr@,
            ForgeError::Parse(detail) => "failed to parse backend output: "@ + detail@,
            ForgeError::Repository(detail) => "could not determine the repository: "@ + detail@,
            ForgeError::Unsupported(id) => "unsupported forge "@ + id@,
            ForgeError::Io { program, source } => "failed to run "@ + program@ + ": "@ + source@,
        }
    }

    /// A human-readable description of the error.
    pub fn message(&self) -> (r: String)
        ensures
            r@ == self.text(),
    {
        match self {
            ForgeError::CommandFailed { program, args, stderr } => {
                let mut s = "command failed: ".to_owned();
                s.append(program.as_str());
                s.append(" ");
                s.append(args.as_str());
                s.append(": ");
                s.append(stderr.as_str());
                s
            },
            ForgeError::Parse(detail) => {
                let mut s = "failed to parse backend output: ".to_owned();
                s.append(detail.as_str());
                s
            },
            ForgeError::Repository(detail) => {
                let mut s = "could not determine the repository: ".to_owned();
                s.append(detail.as_str());
                s
            },
            ForgeError::Unsupported(id) => {
                let mut s = "unsupported forge ".to_owned();
                s.append(id.as_str());
                s
            },
            ForgeError::Io { program, source } => {
                let mut s = "failed to run ".to_owned();
                s.append(program.as_str());
                s.append(": ");
                s.append(source.as_str());
                s
            },
        }
    }
}

// ---------------------------------------------------------------------------
// Backend output
// ---------------------------------------------------------------------------

/// The content of a [`JsonField`].
pub enum JsonView {
    Missing,
    Text(Seq<char>),
    Other,
}

/// The value that a JSON document holds for a key.
#[derive(Debug, PartialEq, Eq)]
pub enum JsonField {
    /// The document is no object, or the object has no such key.
    Missing,
    /// A string.
    Text(String),
    /// Any other value.
    Other,
}

impl View for JsonField {
    type V = JsonView;

    open spec fn view(&self) -> JsonView {
        match self {
            JsonField::Missing => JsonView::Missing,
            JsonField::Text(s) => JsonView::Text(s@),
            JsonField::Other => JsonView::Other,
        }
    }
}

/// The content of a lookup: the field, or why the text is not JSON.
pub open spec fn json_view(r: Result<JsonField, String>) -> Result<JsonView, Seq<char>> {
    match r {
        Ok(field) => Ok(field@),
        Err(detail) => Err(detail@),
    }
}

/// What `serde_json` reads for `key` in the document `text`, or the text of
/// its error.
pub uninterp spec fn json_field(text: Seq<char>, key: Seq<char>) -> Result<JsonView, Seq<char>>;

/// Calls `serde_json::from_str` and `Value::get`.
///
/// The result depends on the document and the key alone: it is the value of
/// the key, told apart by its type, or the parser's error text. What the
/// parser accepts is left unsaid.
#[verifier::external_body]
fn json_lookup(text: &str, key: &str) -> (r: Result<JsonField, String>)
    ensures
        json_view(r) == json_field(text@, key@),
{
    let value: serde_json::Value = serde_json::from_str(text).map_err(|e| e.to_string())?;
    Ok(match value.get(key) {
        None => JsonField::Missing,
        Some(serde_json::Value::String(s)) => JsonField::Text(s.clone()),
        Some(_) => JsonField::Other,
    })
}

/// The content of a backend's answer.
pub open spec fn text_result(r: Result<String, ForgeError>) -> Result<Seq<char>, ForgeFault> {
    match r {
        Ok(s) => Ok(s@),
        Err(e) => Err(e.fault()),
    }
}

/// The content of the answer to an issue request.
pub open spec fn issue_result(r: Result<IssueCreated, ForgeError>) -> Result<
    IssueView,
    ForgeFault,
> {
    match r {
        Ok(issue) => Ok(issue@),
        Err(e) => Err(e.fault()),
    }
}

/// The repository named by the `nameWithOwner` field.
pub open spec fn repo_named(field: Result<JsonView, Seq<char>>) -> Result<Seq<char>, ForgeFault> {
    match field {
        Err(detail) => Err(ForgeFault::Parse(detail)),
        Ok(JsonView::Text(name)) => Ok(name),
        Ok(_) => Err(ForgeFault::Parse("missing nameWithOwner"@)),
    }
}

/// The name of a repository is the text that was found for it, and anything
/// else is an error.
pub proof fn law_repositories_are_named_by_text(field: Result<JsonView, Seq<char>>)
    ensures
        match field {
            Ok(JsonView::Text(name)) => repo_named(field) == Ok::<Seq<char>, ForgeFault>(name),
            Ok(_) => repo_named(field) == Err::<Seq<char>, ForgeFault>(
                ForgeFault::Parse("missing nameWithOwner"@),
            ),
            Err(detail) => repo_named(field) == Err::<Seq<char>, ForgeFault>(
                ForgeFault::Parse(detail),
            ),
        },
{
}

/// The repository named by the `nameWithOwner` field of `gh repo view`.
pub fn repo_from_field(field: Result<JsonField, String>) -> (r: Result<String, ForgeError>)
    ensures
        text_result(r) == repo_named(json_view(field)),
{
    match field {
        Err(detail) => Err(ForgeError::Parse(detail)),
        Ok(JsonField::Text(name)) => Ok(name),
        Ok(_) => Err(ForgeError::Parse("missing nameWithOwner".to_owned())),
    }
}

/// The standard output of a finished command that must have succeeded.
pub open spec fn checked_output(
    program: Seq<char>,
    args: Seq<Seq<char>>,
    reply: Result<process::OutputView, Seq<char>>,
) -> Result<Seq<char>, ForgeFault> {
    match reply {
        Err(source) => Err(ForgeFault::Io { program, source }),
        Ok(output) => if output.success {
            Ok(output.stdout)
        } else {
            Err(
                ForgeFault::CommandFailed {
                    program,
                    args: text::joined_texts(args, " "@),
                    stderr: output.stderr,
                },
            )
        },
    }
}

/// The standard output of a finished command that must have succeeded.
pub fn checked(program: &str, args: &Vec<String>, reply: Result<ProcessOutput, String>) -> (r:
    Result<String, ForgeError>)
    ensures
        text_result(r) == checked_output(
            program@,
            text::texts(args@),
            process::reply_view(reply),
        ),
{
    match reply {
        Err(source) => Err(ForgeError::Io { program: program.to_owned(), source }),
        Ok(output) => if output.success() {
            Ok(output.stdout)
        } else {
            Err(
                ForgeError::CommandFailed {
                    program: program.to_owned(),
                    args: text::join_strings(args, " "),
                    stderr: output.stderr,
                },
            )
        },
    }
}

// ---------------------------------------------------------------------------
// GitHub
// ---------------------------------------------------------------------------

/// The arguments that ask `gh` which repository it operates on.
pub open spec fn repo_args() -> Seq<Seq<char>> {
    seq!["repo"@, "view"@, "--json"@, "nameWithOwner"@]
}

/// The arguments that have `gh` create an issue.
pub open spec fn issue_args(repo: Seq<char>, d: draft::DraftView) -> Seq<Seq<char>> {
    seq![
        "issue"@,
        "create"@,
        "--repo"@,
        repo,
        "--title"@,
        d.title,
        "--body"@,
        d.description,
        "--json"@,
        "number,url"@,
    ]
}

/// A call of `gh` with `args`, in the process's own directory.
pub open spec fn gh_call(args: Seq<Seq<char>>) -> process::CallView {
    process::CallView { program: "gh"@, args, stdin: None, cwd: None }
}

/// The repository that a backend settles on: the explicit one, or the one
/// that `gh repo view` answered.
pub open spec fn resolved(
    repo: Option<Seq<char>>,
    reply: Result<process::OutputView, Seq<char>>,
) -> Result<Seq<char>, ForgeFault> {
    match repo {
        Some(name) => Ok(name),
        None => match checked_output("gh"@, repo_args(), reply) {
            Err(fault) => Err(fault),
            Ok(stdout) => repo_named(json_field(stdout, "nameWithOwner"@)),
        },
    }
}

/// The issue that `gh issue create` answered.
pub open spec fn issue_answered(
    repo: Seq<char>,
    d: draft::DraftView,
    reply: Result<process::OutputView, Seq<char>>,
) -> Result<IssueView, ForgeFault> {
    match checked_output("gh"@, issue_args(repo, d), reply) {
        Err(fault) => Err(fault),
        Ok(stdout) => created::created_in(stdout),
    }
}

/// How many processes it takes to find the repository.
pub open spec fn lookups(repo: Option<Seq<char>>) -> int {
    if repo is Some {
        0
    } else {
        1
    }
}

/// What asking for an issue does: `before` and `after` are the processes run
/// before and after, `result` the answer.
///
/// Without an explicit repository, the first process asks for it. Where the
/// repository is known, exactly one further process creates the issue;
/// where it is not, none does.
pub open spec fn asks_for_issue(
    repo: Option<Seq<char>>,
    d: draft::DraftView,
    before: Seq<process::Exchange>,
    after: Seq<process::Exchange>,
    result: Result<IssueView, ForgeFault>,
) -> bool {
    let n = before.len() as int;
    let k = lookups(repo);
    &&& before.is_prefix_of(after)
    &&& repo is None ==> after.len() > n && after[n].call == gh_call(repo_args())
    &&& match resolved(repo, after[n].reply) {
        Err(fault) => after.len() == n + k && result == Err::<IssueView, _>(fault),
        Ok(name) => {
            &&& after.len() == n + k + 1
            &&& after[n + k].call == gh_call(issue_args(name, d))
            &&& result == issue_answered(name, d, after[n + k].reply)
        },
    }
}

/// GitHub backend: runs the `gh` program.
///
/// Requires `gh` on `PATH` and an authenticated session. The repository is
/// either passed explicitly (`owner/name`) or resolved from the current
/// repository via `gh repo view`.
pub struct GitHubForge<R: ProcessRunner> {
    /// Runs the `gh` program.
    pub runner: R,
    /// Explicit `owner/name`; `None` resolves from the repository.
    pub repo: Option<String>,
}

/// An issue comes of a call of `gh issue create` with the title and the
/// description of the draft, as its last call and its only one when the
/// repository is known, that succeeded; what it printed says which issue it
/// is.
pub proof fn law_issues_are_created_as_drafted(
    repo: Option<Seq<char>>,
    d: draft::DraftView,
    before: Seq<process::Exchange>,
    after: Seq<process::Exchange>,
    issue: IssueView,
)
    requires
        asks_for_issue(repo, d, before, after, Ok::<IssueView, ForgeFault>(issue)),
    ensures
        before.is_prefix_of(after),
        ({
            let last = after.last();
            let args = last.call.args;
            &&& after.len() > before.len()
            &&& last.call.program == "gh"@
            &&& args.len() == 10
            &&& args[0] == "issue"@ && args[1] == "create"@
            &&& args[2] == "--repo"@
            &&& args[4] == "--title"@ && args[5] == d.title
            &&& args[6] == "--body"@ && args[7] == d.description
            &&& args[8] == "--json"@ && args[9] == "number,url"@
            &&& repo matches Some(name) ==> args[3] == name && after.len() == before.len() + 1
            &&& repo is None ==> {
                &&& after.len() == before.len() + 2
                &&& after[before.len() as int].call.program == "gh"@
                &&& after[before.len() as int].call.args == seq![
                    "repo"@,
                    "view"@,
                    "--json"@,
                    "nameWithOwner"@,
                ]
                &&& after[before.len() as int].reply matches Ok(output) && output.success
                    && json_field(output.stdout, "nameWithOwner"@) == Ok::<JsonView, Seq<char>>(
                    JsonView::Text(args[3]),
                )
            }
            &&& last.reply matches Ok(output) && output.success && created::created_in(
                output.stdout,
            ) == Ok::<IssueView, ForgeFault>(issue)
        }),
{
}

/// A call that could not be made, or that failed, is an error that says so:
/// which program it was, with what arguments, and what it printed.
pub proof fn law_failed_calls_are_errors(
    program: Seq<char>,
    args: Seq<Seq<char>>,
    reply: Result<process::OutputView, Seq<char>>,
)
    ensures
        match reply {
            Err(reason) => checked_output(program, args, reply) == Err::<Seq<char>, ForgeFault>(
                ForgeFault::Io { program, source: reason },
            ),
            Ok(output) => if output.success {
                checked_output(program, args, reply) == Ok::<Seq<char>, ForgeFault>(output.stdout)
            } else {
                checked_output(program, args, reply) matches Err(
                    ForgeFault::CommandFailed { program: p, args: a, stderr },
                ) && p == program && stderr == output.stderr && a == text::joined_texts(args, " "@)
            },
        },
{
}

impl<R: ProcessRunner> GitHubForge<R> {
    /// Creates a GitHub backend. `repo` overrides repository resolution.
    pub fn new(runner: R, repo: Option<String>) -> (r: Self)
        ensures
            r.runner == runner,
            r.repo == repo,
    {
        GitHubForge { runner, repo }
    }

    /// Resolves the `owner/name` of the repository the backend operates on.
    ///
    /// Uses the explicit override when given, otherwise asks `gh` about the
    /// repository in the current directory.
    pub fn resolve_repo(&mut self) -> (r: Result<String, ForgeError>)
        ensures
            final(self).repo == old(self).repo,
            ({
                let before = old(self).runner.log();
                let after = final(self).runner.log();
                let k = lookups(matcher::text_option(old(self).repo));
                &&& before.is_prefix_of(after)
                &&& after.len() == before.len() + k
                &&& k == 1 ==> after.last().call == gh_call(repo_args())
                &&& text_result(r) == resolved(
                    matcher::text_option(old(self).repo),
                    after[before.len() as int].reply,
                )
                &&& process::are_replies(old(self).runner, after, before.len() as int)
                &&& process::has_moved_on(old(self).runner, final(self).runner, k)
            }),
    {
        if self.repo.is_some() {
            let repo = config::clone_option(&self.repo).unwrap();
            return Ok(repo);
        }
        let args = vec![
            "repo".to_owned(),
            "view".to_owned(),
            "--json".to_owned(),
            "nameWithOwner".to_owned(),
        ];
        assert(text::texts(args@) == repo_args());
        let reply = self.runner.run("gh", &args, None, None);
        match checked("gh", &args, reply) {
            Err(e) => Err(e),
            Ok(stdout) => repo_from_field(json_lookup(stdout.as_str(), "nameWithOwner")),
        }
    }
}

impl<R: ProcessRunner> Forge for GitHubForge<R> {
    fn id(&self) -> (r: &'static str)
        ensures
            r@ == "github"@,
    {
        "github"
    }

    fn create_issue(&mut self, draft: &IssueDraft) -> (r: Result<IssueCreated, ForgeError>)
        ensures
            final(self).repo == old(self).repo,
            asks_for_issue(
                matcher::text_option(old(self).repo),
                draft@,
                old(self).runner.log(),
                final(self).runner.log(),
                issue_result(r),
            ),
            ({
                let before = old(self).runner.log().len() as int;
                let after = final(self).runner.log();
                &&& process::are_replies(old(self).runner, after, before)
                &&& process::has_moved_on(
                    old(self).runner,
                    final(self).runner,
                    after.len() - before,
                )
            }),
    {
        let ghost before = self.runner.log();
        let repo = match self.resolve_repo() {
            Err(e) => {
                return Err(e);
            },
            Ok(repo) => repo,
        };
        let ghost asked = self.runner.log();
        let args = vec![
            "issue".to_owned(),
            "create".to_owned(),
            "--repo".to_owned(),
            repo.clone(),
            "--title".to_owned(),
            draft.title.clone(),
            "--body".to_owned(),
            draft.description.clone(),
            "--json".to_owned(),
            "number,url".to_owned(),
        ];
        assert(text::texts(args@) == issue_args(repo@, draft@));
        let reply = self.runner.run("gh", &args, None, None);
        assert(before.is_prefix_of(self.runner.log()));
        match checked("gh", &args, reply) {
            Err(e) => Err(e),
            Ok(stdout) => created::parse_created(stdout.as_str()),
        }
    }
}

/// Builds the backend for a [`ForgeConfig`]; the forge kinds other than
/// `github` are unsupported.
pub fn from_config<R: ProcessRunner>(config: &ForgeConfig, runner: R) -> (r: Result<
    GitHubForge<R>,
    ForgeError,
>)
    ensures
        config.kind@ == "github"@ ==> r == Ok::<_, ForgeError>(
            GitHubForge { runner, repo: None },
        ),
        config.kind@ != "github"@ ==> (r matches Err(ForgeError::Unsupported(id)) && id@
            == config.kind@),
{
    if text::same_text(config.kind.as_str(), "github") {
        Ok(GitHubForge::new(runner, None))
    } else {
        Err(ForgeError::Unsupported(config.kind.clone()))
    }
}

} // verus!
