//! Editor sessions: drafting issues and read-only code views.
//!
//! The editor is resolved from configuration or `$EDITOR`, defaulting to
//! `nvim`. Drafts are edited in a temporary file; read-only views open the
//! real file in vim-family editors with `-R`, or a throwaway copy for
//! editors that cannot be started read-only.

use crate::config;
use crate::config::EditorConfig;
use crate::draft;
use crate::draft::{ContextSnippet, DraftError, IssueDraft};
use crate::matcher;
use crate::path;
use crate::text;
use vstd::prelude::*;
use vstd::string::*;

verus! {

/// The editor that runs when neither the configuration nor the environment
/// names one.
pub const DEFAULT_EDITOR: &'static str = "nvim";

/// How often a busy editor program is started before giving up.
pub const MAX_ATTEMPTS: usize = 5;

/// Resolves and runs editor sessions.
#[derive(Debug)]
pub struct Editor {
    /// The raw command from config or `$EDITOR` (whitespace-split).
    pub command: Vec<String>,
}

/// The editor command line: the configured one, or `$EDITOR`, or the default.
pub open spec fn editor_line(configured: Option<Seq<char>>, env: Option<Seq<char>>) -> Seq<char> {
    match (configured, env) {
        (Some(line), _) => line,
        (None, Some(line)) => line,
        (None, None) => DEFAULT_EDITOR@,
    }
}

/// A character in lower case, where it is one of `A` to `Z`.
pub open spec fn lower(c: char) -> char {
    if 65 <= c as u32 <= 90 {
        ((c as u32) + 32) as char
    } else {
        c
    }
}

/// A text with `A` to `Z` in lower case.
pub open spec fn lower_text(s: Seq<char>) -> Seq<char> {
    s.map_values(|c: char| lower(c))
}

/// Whether a program is of the vim family: the stem of its file name holds
/// `vim`, in whatever case.
pub open spec fn is_vim(program: Seq<char>) -> bool {
    match path::stem_of(program) {
        Some(stem) => text::occurs(lower_text(stem), "vim"@),
        None => false,
    }
}

/// How a file is opened for reading only.
#[derive(Debug, PartialEq, Eq)]
pub enum ViewPlan {
    /// The editor opens the file itself, with these arguments.
    Direct {
        /// The arguments after those of the command itself.
        args: Vec<String>,
    },
    /// The editor opens a throwaway copy whose name ends in `suffix`.
    Copy {
        /// The dotted extension of the file, empty where it has none.
        suffix: String,
    },
}

/// The content of a [`ViewPlan`].
pub enum PlanView {
    Direct(Seq<Seq<char>>),
    Copy(Seq<char>),
}

impl View for ViewPlan {
    type V = PlanView;

    open spec fn view(&self) -> PlanView {
        match self {
            ViewPlan::Direct { args } => PlanView::Direct(text::texts(args@)),
            ViewPlan::Copy { suffix } => PlanView::Copy(suffix@),
        }
    }
}

/// The dotted extension of a path, empty where it has none.
pub open spec fn dotted_extension(p: Seq<char>) -> Seq<char> {
    match path::extension_of(p) {
        Some(e) => "."@ + e,
        None => Seq::empty(),
    }
}

/// How an editor opens `file` at `line` for reading only.
pub open spec fn view_of(vim: bool, file: Seq<char>, line: nat) -> PlanView {
    if vim {
        PlanView::Direct(seq!["-R"@, "+"@ + text::decimal(line), file])
    } else {
        PlanView::Copy(dotted_extension(file))
    }
}

/// How one attempt to run an editor ended.
#[derive(Debug, PartialEq, Eq)]
pub enum Attempt {
    /// The editor ran and exited.
    Exited {
        /// Whether it exited successfully.
        success: bool,
        /// Its exit status in words.
        status: String,
    },
    /// The editor could not be started.
    Failed {
        /// Whether its program file was busy being written.
        busy: bool,
    },
}

/// What follows an attempt to run an editor.
#[derive(Debug, PartialEq, Eq)]
pub enum RunStep {
    /// The session is over.
    Done,
    /// The editor is to be started again.
    Retry,
    /// The session failed.
    Fail(String),
}

/// The content of a [`RunStep`].
pub enum StepView {
    Done,
    Retry,
    Fail(Seq<char>),
}

impl View for RunStep {
    type V = StepView;

    open spec fn view(&self) -> StepView {
        match self {
            RunStep::Done => StepView::Done,
            RunStep::Retry => StepView::Retry,
            RunStep::Fail(message) => StepView::Fail(message@),
        }
    }
}

/// What follows the attempt number `attempt` (from 0) to run `program`.
///
/// A freshly written program can be busy for a moment, so a busy one is
/// started again while attempts remain.
pub open spec fn step_after(program: Seq<char>, attempt: int, outcome: Attempt) -> StepView {
    match outcome {
        Attempt::Exited { success, status } => if success {
            StepView::Done
        } else {
            StepView::Fail("editor `"@ + program + "` exited with "@ + status@)
        },
        Attempt::Failed { busy } => if busy && attempt + 1 < MAX_ATTEMPTS {
            StepView::Retry
        } else {
            StepView::Fail("failed to run editor `"@ + program + "`"@)
        },
    }
}

/// The last attempt is never followed by another: an editor session ends
/// after at most [`MAX_ATTEMPTS`] attempts.
pub proof fn law_attempts_end(program: Seq<char>, attempt: int, outcome: Attempt)
    requires
        attempt + 1 >= MAX_ATTEMPTS,
    ensures
        step_after(program, attempt, outcome) !is Retry,
{
}

/// The configured editor is used, else the one of the environment, else
/// `nvim`.
pub proof fn law_the_configured_editor_wins(configured: Option<Seq<char>>, env: Option<Seq<char>>)
    ensures
        configured matches Some(line) ==> editor_line(configured, env) == line,
        configured is None && env is Some ==> editor_line(configured, env) == env->0,
        configured is None && env is None ==> editor_line(configured, env) == "nvim"@,
{
}

/// Which letters have the lower-case letters of `vim`.
proof fn lemma_lower(c: char)
    ensures
        lower(c) == 'v' ==> c == 'v' || c == 'V',
        lower(c) == 'i' ==> c == 'i' || c == 'I',
        lower(c) == 'm' ==> c == 'm' || c == 'M',
{
    let n = c as u32;
    if 65 <= n <= 90 {
        assert(((n + 32) as char) as u32 == n + 32);
    }
}

/// A program is one of the vim family exactly when the letters of `vim`, in
/// either case, follow each other in its file stem.
pub proof fn law_vim_is_told_by_its_name(program: Seq<char>, stem: Seq<char>)
    requires
        path::stem_of(program) == Some(stem),
    ensures
        is_vim(program) <==> exists|i: int|
            {
                &&& 0 <= i
                &&& i + 2 < stem.len()
                &&& #[trigger] stem[i] == 'v' || stem[i] == 'V'
                &&& stem[i + 1] == 'i' || stem[i + 1] == 'I'
                &&& stem[i + 2] == 'm' || stem[i + 2] == 'M'
            },
{
    reveal_strlit("vim");
    let low = lower_text(stem);
    if is_vim(program) {
        let i = choose|i: int| text::occurs_at(low, "vim"@, i);
        assert(low.subrange(i, i + 3)[0] == 'v');
        assert(low.subrange(i, i + 3)[1] == 'i');
        assert(low.subrange(i, i + 3)[2] == 'm');
        assert(low[i] == lower(stem[i]) && low[i + 1] == lower(stem[i + 1]) && low[i + 2] == lower(
            stem[i + 2],
        ));
        lemma_lower(stem[i]);
        lemma_lower(stem[i + 1]);
        lemma_lower(stem[i + 2]);
        assert(stem[i] == 'v' || stem[i] == 'V');
    }
    if exists|i: int|
        {
            &&& 0 <= i
            &&& i + 2 < stem.len()
            &&& #[trigger] stem[i] == 'v' || stem[i] == 'V'
            &&& stem[i + 1] == 'i' || stem[i + 1] == 'I'
            &&& stem[i + 2] == 'm' || stem[i + 2] == 'M'
        } {
        let i = choose|i: int|
            {
                &&& 0 <= i
                &&& i + 2 < stem.len()
                &&& #[trigger] stem[i] == 'v' || stem[i] == 'V'
                &&& stem[i + 1] == 'i' || stem[i + 1] == 'I'
                &&& stem[i + 2] == 'm' || stem[i + 2] == 'M'
            };
        assert(low.subrange(i, i + 3) == "vim"@);
        assert(text::occurs_at(low, "vim"@, i));
    }
}

/// One of the vim family opens the file itself, read-only and at the line;
/// any other editor gets a copy with the same extension.
pub proof fn law_files_are_viewed_without_changing_them(file: Seq<char>, line: nat)
    ensures
        view_of(true, file, line) == PlanView::Direct(
            seq!["-R"@, "+"@ + text::decimal(line), file],
        ),
        path::extension_of(file) matches Some(e) ==> view_of(false, file, line) == PlanView::Copy(
            "."@ + e,
        ),
        path::extension_of(file) is None ==> view_of(false, file, line) == PlanView::Copy(
            Seq::empty(),
        ),
{
}

/// An editor that ended well is done with, one that did not has failed, and
/// one that could not be started is tried again only while its file is busy
/// and fewer than five attempts were made.
pub proof fn law_attempts_end_as_they_should(program: Seq<char>, attempt: int, outcome: Attempt)
    ensures
        ({
            let step = step_after(program, attempt, outcome);
            &&& step is Done <==> (outcome matches Attempt::Exited { success, status } && success)
            &&& step is Retry <==> (outcome matches Attempt::Failed { busy } && busy && attempt
                < 4)
            &&& (outcome matches Attempt::Exited { success, status } && !success) ==> step
                == StepView::Fail("editor `"@ + program + "` exited with "@ + outcome->status@)
            &&& (outcome matches Attempt::Failed { busy } && (!busy || attempt >= 4)) ==> step
                == StepView::Fail("failed to run editor `"@ + program + "`"@)
        }),
{
}

/// A text with `A` to `Z` in lower case.
fn lower_chars(cs: &Vec<char>) -> (r: Vec<char>)
    ensures
        r@ == lower_text(cs@),
{
    let mut out: Vec<char> = Vec::new();
    let mut i: usize = 0;
    while i < cs.len()
        invariant
            i <= cs.len(),
            out@ == lower_text(cs@.take(i as int)),
        decreases cs.len() - i,
    {
        let c = cs[i];
        let code: u32 = c as u32;
        let l = if 65 <= code && code <= 90 {
            ((code as u8) + 32) as char
        } else {
            c
        };
        assert(l == lower(c));
        out.push(l);
        assert(out@ == lower_text(cs@.take(i + 1)));
        i += 1;
    }
    assert(cs@.take(cs.len() as int) == cs@);
    out
}

impl Editor {
    /// Resolves the editor command from `config` or `env`, the value of
    /// `$EDITOR`.
    pub fn resolve(config: &EditorConfig, env: Option<String>) -> (r: Self)
        ensures
            text::texts(r.command@) == text::words_from(
                editor_line(matcher::text_option(config.command), matcher::text_option(env)),
                0,
            ),
    {
        let line = match config::clone_option(&config.command) {
            Some(line) => line,
            None => match env {
                Some(line) => line,
                None => DEFAULT_EDITOR.to_owned(),
            },
        };
        Editor { command: text::split_words(line.as_str()) }
    }

    /// Whether the editor is vim-family and supports `-R`/`+line`.
    pub fn supports_vim_flags(&self) -> (r: bool)
        ensures
            r == (self.command@.len() > 0 && is_vim(self.command@[0]@)),
    {
        if self.command.len() == 0 {
            return false;
        }
        match path::file_stem(self.command[0].as_str()) {
            Some(stem) => {
                let folded = lower_chars(&stem);
                let vim = text::chars_of("vim");
                proof {
                    text::lemma_find(folded@, vim@, 0);
                }
                text::find_chars(&folded, &vim, 0).is_some()
            },
            None => false,
        }
    }

    /// The program of the editor and all the arguments it is run with, `args`
    /// last.
    pub fn invocation(&self, args: &Vec<String>) -> (r: (String, Vec<String>))
        requires
            self.command@.len() > 0,
        ensures
            r.0@ == self.command@[0]@,
            text::texts(r.1@) == text::texts(self.command@).skip(1) + text::texts(args@),
    {
        let ghost fixed = text::texts(self.command@);
        let mut all: Vec<String> = Vec::new();
        let mut i: usize = 1;
        assert(text::texts(all@) == fixed.subrange(1, 1));
        while i < self.command.len()
            invariant
                1 <= i <= self.command.len(),
                fixed == text::texts(self.command@),
                text::texts(all@) == fixed.subrange(1, i as int),
            decreases self.command.len() - i,
        {
            let word = self.command[i].clone();
            let ghost before = text::texts(all@);
            all.push(word);
            assert(text::texts(all@) == before.push(word@));
            assert(fixed.subrange(1, i + 1) == fixed.subrange(1, i as int).push(fixed[i as int]));
            i += 1;
        }
        assert(fixed.subrange(1, fixed.len() as int) == fixed.skip(1));
        let ghost given = text::texts(args@);
        let mut j: usize = 0;
        assert(fixed.skip(1) + given.take(0) == fixed.skip(1));
        while j < args.len()
            invariant
                j <= args.len(),
                given == text::texts(args@),
                text::texts(all@) == fixed.skip(1) + given.take(j as int),
            decreases args.len() - j,
        {
            let word = args[j].clone();
            let ghost before = text::texts(all@);
            all.push(word);
            assert(text::texts(all@) == before.push(word@));
            assert(given.take(j + 1) == given.take(j as int).push(given[j as int]));
            j += 1;
        }
        assert(given.take(given.len() as int) == given);
        (self.command[0].clone(), all)
    }

    /// The arguments with which the editor opens `path`, or why it cannot:
    /// the file must exist.
    pub fn edit_file(&self, path: &str, exists: bool) -> (r: Result<Vec<String>, String>)
        ensures
            match r {
                Ok(args) => exists && text::texts(args@) == seq![path@],
                Err(message) => !exists && message@ == path@ + " does not exist"@,
            },
    {
        if exists {
            let args = vec![path.to_owned()];
            assert(text::texts(args@) == seq![path@]);
            Ok(args)
        } else {
            let mut message = path.to_owned();
            message.append(" does not exist");
            Err(message)
        }
    }

    /// How the editor opens `rel` (relative to `root`) for read-only
    /// inspection, at `line` when it supports that.
    ///
    /// vim-family editors open the real file with `-R`; other editors get a
    /// throwaway copy that keeps the original extension, so syntax
    /// highlighting still applies.
    pub fn view_readonly(&self, root: &str, rel: &str, line: usize) -> (r: ViewPlan)
        ensures
            r@ == view_of(
                self.command@.len() > 0 && is_vim(self.command@[0]@),
                path::joined(root@, rel@),
                line as nat,
            ),
    {
        let file = path::join(root, rel);
        if self.supports_vim_flags() {
            let mut at = "+".to_owned();
            let digits = text::decimal_string(line);
            at.append(digits.as_str());
            let args = vec!["-R".to_owned(), at, file];
            assert(text::texts(args@) == seq!["-R"@, "+"@ + text::decimal(line as nat), file@]);
            ViewPlan::Direct { args }
        } else {
            let suffix = match path::extension(file.as_str()) {
                Some(e) => {
                    let mut s = ".".to_owned();
                    s.append(e.as_str());
                    s
                },
                None => String::new(),
            };
            ViewPlan::Copy { suffix }
        }
    }
}

/// What follows the attempt number `attempt` (from 0) to run `program`.
pub fn run_step(program: &str, attempt: usize, outcome: &Attempt) -> (r: RunStep)
    ensures
        r@ == step_after(program@, attempt as int, *outcome),
{
    match outcome {
        Attempt::Exited { success, status } => if *success {
            RunStep::Done
        } else {
            let mut s = "editor `".to_owned();
            s.append(program);
            s.append("` exited with ");
            s.append(status.as_str());
            RunStep::Fail(s)
        },
        Attempt::Failed { busy } => if *busy && attempt < MAX_ATTEMPTS - 1 {
            RunStep::Retry
        } else {
            let mut s = "failed to run editor `".to_owned();
            s.append(program);
            s.append("`");
            RunStep::Fail(s)
        },
    }
}

// ---------------------------------------------------------------------------
// Drafts
// ---------------------------------------------------------------------------

/// The outcome of a draft editing session.
#[derive(Debug, PartialEq, Eq)]
pub enum DraftOutcome {
    /// The user saved a valid draft.
    Drafted(IssueDraft),
    /// The user quit without changes (or left the placeholder title).
    Aborted,
}

/// The content of a [`DraftOutcome`].
pub enum OutcomeView {
    Drafted(draft::DraftView),
    Aborted,
}

impl View for DraftOutcome {
    type V = OutcomeView;

    open spec fn view(&self) -> OutcomeView {
        match self {
            DraftOutcome::Drafted(d) => OutcomeView::Drafted(d@),
            DraftOutcome::Aborted => OutcomeView::Aborted,
        }
    }
}

/// The content of the result of a session.
pub open spec fn session_view(r: Result<DraftOutcome, String>) -> Result<OutcomeView, Seq<char>> {
    match r {
        Ok(outcome) => Ok(outcome@),
        Err(message) => Err(message@),
    }
}

/// The outcome of a session whose file decodes to `decoded`.
pub open spec fn judged(
    unchanged: bool,
    decoded: Result<draft::DraftView, draft::DraftFault>,
) -> Result<OutcomeView, Seq<char>> {
    if unchanged {
        Ok(OutcomeView::Aborted)
    } else {
        match decoded {
            Ok(d) => Ok(OutcomeView::Drafted(d)),
            Err(draft::DraftFault::PlaceholderTitle) => Ok(OutcomeView::Aborted),
            Err(fault) => Err(
                "the draft template was modified in a way todone cannot decode: "@ + fault.text(),
            ),
        }
    }
}

/// The content of a decoded draft file.
pub open spec fn decoded_view(r: Result<IssueDraft, DraftError>) -> Result<
    draft::DraftView,
    draft::DraftFault,
> {
    match r {
        Ok(d) => Ok(d@),
        Err(e) => Err(e.fault()),
    }
}

/// A template that was not touched, or whose title still is the placeholder,
/// makes no draft; one that can be read makes the draft that it holds; any
/// other is an error that says why.
pub proof fn law_only_written_drafts_count(
    unchanged: bool,
    decoded: Result<draft::DraftView, draft::DraftFault>,
)
    ensures
        unchanged ==> judged(unchanged, decoded) == Ok::<OutcomeView, Seq<char>>(
            OutcomeView::Aborted,
        ),
        !unchanged ==> match decoded {
            Ok(d) => judged(unchanged, decoded) == Ok::<OutcomeView, Seq<char>>(
                OutcomeView::Drafted(d),
            ),
            Err(fault) => if fault is PlaceholderTitle {
                judged(unchanged, decoded) == Ok::<OutcomeView, Seq<char>>(OutcomeView::Aborted)
            } else {
                judged(unchanged, decoded) == Err::<OutcomeView, Seq<char>>(
                    "the draft template was modified in a way todone cannot decode: "@
                        + fault.text(),
                )
            },
        },
{
}

/// The outcome of a session whose changed file decodes to `decoded`.
pub fn judge_draft(decoded: Result<IssueDraft, DraftError>) -> (r: Result<DraftOutcome, String>)
    ensures
        session_view(r) == judged(false, decoded_view(decoded)),
{
    match decoded {
        Ok(d) => Ok(DraftOutcome::Drafted(d)),
        Err(DraftError::PlaceholderTitle) => Ok(DraftOutcome::Aborted),
        Err(e) => {
            let mut s =
                "the draft template was modified in a way todone cannot decode: ".to_owned();
            let message = e.message();
            s.append(message.as_str());
            Err(s)
        },
    }
}

/// The outcome of a session that was opened on the template for `draft` and
/// `snippet` and left `content` in the file: where that is the template for
/// another draft (see [`draft::is_faithful`]), that draft.
pub fn draft_outcome(draft: &IssueDraft, snippet: &ContextSnippet, content: &str) -> (r: Result<
    DraftOutcome,
    String,
>)
    ensures
        session_view(r) == judged(
            content@ == draft::draft_text(draft@, snippet@),
            draft::parsed(content@),
        ),
        forall|d: draft::DraftView, s: draft::SnippetView|
            #[trigger] draft::draft_text(d, s) == content@ && draft::is_faithful(d, s) && content@
                != draft::draft_text(draft@, snippet@) ==> session_view(r) == Ok::<_, Seq<char>>(
                OutcomeView::Drafted(d),
            ),
{
    let rendered = draft::render_draft(draft, snippet);
    if text::same_text(content, rendered.as_str()) {
        return Ok(DraftOutcome::Aborted);
    }
    judge_draft(draft::parse_draft(content))
}

} // verus!
