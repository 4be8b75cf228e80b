//! The interactive review: one screen per finding plus a confirm screen,
//! driven by the session state machine.
//!
//! The app is terminal-agnostic: it turns keys into state changes through
//! [`PortApp::handle_key`] and its state into texts and styled characters; a
//! terminal front end draws them.

use crate::context;
use crate::context::{extract_context, Context};
use crate::draft;
use crate::draft::{ContextSnippet, IssueDraft};
use crate::editor::DraftOutcome;
use crate::highlight;
use crate::highlight::{HighlightEngine, HighlightSpan};
use crate::matcher;
use crate::model;
use crate::model::Finding;
use crate::order;
use crate::render;
use crate::run::ScanContext;
use crate::scan;
use crate::session;
use crate::session::{Decision, Session};
use crate::text;
use std::ops::Range;
use vstd::prelude::*;
use vstd::string::*;

verus! {

/// The screen currently shown.
#[derive(Debug, Clone, Copy, PartialEq, Eq, Structural)]
pub enum Mode {
    /// Reviewing findings.
    Review,
    /// Shrinking/growing the selected comment range.
    SelectionEdit,
    /// The pre-execution confirmation list.
    Confirm,
}

/// What the user asked the review loop to do.
#[derive(Debug, Clone, Copy, PartialEq, Eq, Structural)]
pub enum AppAction {
    /// Keep running.
    Continue,
    /// Leave the review and execute the session.
    Execute,
    /// Leave the review without changing anything.
    Quit,
}

/// A key press.
#[derive(Debug, Clone, Copy, PartialEq, Eq, Structural)]
pub enum Key {
    /// A character.
    Char(char),
    /// Cursor up.
    Up,
    /// Cursor down.
    Down,
    /// Cursor left.
    Left,
    /// Cursor right.
    Right,
    /// Escape.
    Esc,
    /// Any other key.
    Other,
}

/// Full-screen review state.
#[derive(Debug)]
pub struct PortApp {
    /// The session (findings, decisions and cursor).
    pub session: Session,
    /// Context windows per finding index.
    pub contexts: Vec<Context>,
    /// The current screen.
    pub mode: Mode,
    /// Transient status message shown in the footer.
    pub message: Option<String>,
    /// Whether the help overlay is open.
    pub show_help: bool,
    /// Whether execution will only print the plan.
    pub dry_run: bool,
    /// When set, quitting the review executes instead of aborting, and the
    /// confirm screen is skipped once everything is decided (`--yes`).
    pub auto_confirm: bool,
    /// The text of each finding's file, by finding index; empty where the
    /// file could not be read.
    pub sources: Vec<String>,
    /// Repository root, for reads and editors.
    pub root: String,
    /// Context configuration (before/after).
    pub context_lines: (usize, usize),
    /// Whether long context lines are wrapped.
    pub wrap: bool,
}

/// What keys read and change of a [`PortApp`].
#[verifier::ext_equal]
pub struct AppView {
    pub findings: Seq<model::FindingView>,
    pub decisions: Seq<Option<Decision>>,
    pub cursor: int,
    pub mode: Mode,
    pub message: Option<Seq<char>>,
    pub show_help: bool,
    pub auto_confirm: bool,
    pub wrap: bool,
}

impl View for PortApp {
    type V = AppView;

    open spec fn view(&self) -> AppView {
        AppView {
            findings: order::views(self.session.findings@),
            decisions: self.session.decisions@,
            cursor: self.session.cursor as int,
            mode: self.mode,
            message: matcher::text_option(self.message),
            show_help: self.show_help,
            auto_confirm: self.auto_confirm,
            wrap: self.wrap,
        }
    }
}

// ---------------------------------------------------------------------------
// What a key does
// ---------------------------------------------------------------------------

impl AppView {
    /// The decision `d` recorded for the current finding.
    pub open spec fn decide(self, d: Option<Decision>) -> AppView {
        if self.cursor < self.decisions.len() {
            AppView { decisions: self.decisions.update(self.cursor, d), ..self }
        } else {
            self
        }
    }

    /// The cursor moved by `delta` findings, clamped at the edges.
    pub open spec fn go(self, delta: int) -> AppView {
        let cursor = if self.findings.len() == 0 {
            0
        } else {
            model::larger(0, model::smaller(self.cursor + delta, self.findings.len() - 1))
        };
        AppView { cursor, ..self }
    }

    /// The message shown.
    pub open spec fn say(self, message: Seq<char>) -> AppView {
        AppView { message: Some(message), ..self }
    }

    /// The screen `mode` shown.
    pub open spec fn show(self, mode: Mode) -> AppView {
        AppView { mode, ..self }
    }

    /// The current finding replaced.
    pub open spec fn replace(self, f: model::FindingView) -> AppView {
        if self.cursor < self.findings.len() {
            AppView { findings: self.findings.update(self.cursor, f), ..self }
        } else {
            self
        }
    }

    /// The current finding.
    pub open spec fn current(self) -> model::FindingView {
        self.findings[self.cursor]
    }

    /// After a decision: on to the next finding without one; once there is
    /// none, to the confirm screen, or straight to execution when that needs
    /// no confirmation.
    pub open spec fn advance(self) -> (AppView, AppAction) {
        match session::next_undecided_offset(self.decisions, self.cursor, 1) {
            Some(offset) => (
                AppView {
                    cursor: session::round(self.cursor, offset, self.decisions.len()),
                    ..self
                },
                AppAction::Continue,
            ),
            None => if self.auto_confirm {
                (self.say("all findings decided"@), AppAction::Execute)
            } else {
                (self.say("all findings decided"@).show(Mode::Confirm), AppAction::Continue)
            },
        }
    }
}

/// What a key does on the review screen.
pub open spec fn on_review_key(v: AppView, key: Key) -> (AppView, AppAction) {
    match key {
        Key::Char('s') => v.decide(Some(Decision::Skip)).advance(),
        Key::Char('d') => v.decide(Some(Decision::Delete)).advance(),
        Key::Char('x') => (v.decide(None).say("decision cleared"@), AppAction::Continue),
        Key::Char('e') => (v.show(Mode::SelectionEdit), AppAction::Continue),
        Key::Char('j') => (v.go(1), AppAction::Continue),
        Key::Down => (v.go(1), AppAction::Continue),
        Key::Char('k') => (v.go(-1), AppAction::Continue),
        Key::Up => (v.go(-1), AppAction::Continue),
        Key::Char('c') => (v.show(Mode::Confirm), AppAction::Continue),
        Key::Char('w') => (AppView { wrap: !v.wrap, ..v }, AppAction::Continue),
        Key::Char('?') => (AppView { show_help: true, ..v }, AppAction::Continue),
        Key::Char('q') => (v, leave(v.auto_confirm)),
        Key::Esc => (v, leave(v.auto_confirm)),
        _ => (v, AppAction::Continue),
    }
}

/// How leaving the review ends it.
pub open spec fn leave(auto_confirm: bool) -> AppAction {
    if auto_confirm {
        AppAction::Execute
    } else {
        AppAction::Quit
    }
}

/// What a key does while the selection is edited.
pub open spec fn on_selection_key(v: AppView, key: Key) -> (AppView, AppAction) {
    match key {
        Key::Left => (v.replace(v.current().shrunk()), AppAction::Continue),
        Key::Right => (v.replace(v.current().grown()), AppAction::Continue),
        Key::Char('r') => (v.replace(v.current().whole()), AppAction::Continue),
        Key::Char('q') => (v.show(Mode::Review), AppAction::Continue),
        Key::Esc => (v.show(Mode::Review), AppAction::Continue),
        Key::Char('j') => (v.go(1), AppAction::Continue),
        Key::Down => (v.go(1), AppAction::Continue),
        Key::Char('k') => (v.go(-1), AppAction::Continue),
        Key::Up => (v.go(-1), AppAction::Continue),
        _ => (v, AppAction::Continue),
    }
}

/// What a key does on the confirm screen.
pub open spec fn on_confirm_key(v: AppView, key: Key) -> (AppView, AppAction) {
    match key {
        Key::Char('y') => (v, AppAction::Execute),
        Key::Char('b') => (v.show(Mode::Review), AppAction::Continue),
        Key::Char('q') => (v.show(Mode::Review), AppAction::Continue),
        Key::Esc => (v.show(Mode::Review), AppAction::Continue),
        _ => (v, AppAction::Continue),
    }
}

/// What a key does: the next state, and what the user asked for.
pub open spec fn on_key(v: AppView, key: Key) -> (AppView, AppAction) {
    if v.show_help {
        if key == Key::Esc || key == Key::Char('?') || key == Key::Char('q') {
            (AppView { show_help: false, ..v }, AppAction::Continue)
        } else {
            (v, AppAction::Continue)
        }
    } else {
        match v.mode {
            Mode::Review => on_review_key(v, key),
            Mode::SelectionEdit => on_selection_key(v, key),
            Mode::Confirm => on_confirm_key(v, key),
        }
    }
}

/// A session is executed only after `y` on the confirm screen, unless no
/// confirmation is asked for.
pub proof fn law_execution_is_confirmed(v: AppView, key: Key)
    ensures
        on_key(v, key).1 == AppAction::Execute && !v.auto_confirm ==> v.mode == Mode::Confirm && key
            == Key::Char('y') && !v.show_help,
{
}

/// Quitting changes nothing, and with `auto_confirm` nothing quits.
pub proof fn law_quitting_changes_nothing(v: AppView, key: Key)
    ensures
        on_key(v, key).1 == AppAction::Quit ==> on_key(v, key).0 == v && !v.auto_confirm,
{
}

/// While the help is open, a key at most closes it.
pub proof fn law_help_is_modal(v: AppView, key: Key)
    requires
        v.show_help,
    ensures
        on_key(v, key).1 == AppAction::Continue,
        on_key(v, key).0 == v || on_key(v, key).0 == (AppView { show_help: false, ..v }),
{
}

/// A key acts on the current finding alone: every other finding keeps its
/// decision and selection, and no finding's comments, category or matched
/// comment change.
pub proof fn law_keys_act_on_the_current_finding(v: AppView, key: Key, i: int)
    requires
        0 <= v.cursor,
        v.decisions.len() == v.findings.len(),
        0 <= i < v.findings.len(),
    ensures
        ({
            let w = on_key(v, key).0;
            &&& w.findings.len() == v.findings.len()
            &&& w.decisions.len() == v.decisions.len()
            &&& i != v.cursor ==> w.findings[i] == v.findings[i] && w.decisions[i]
                == v.decisions[i]
            &&& w.findings[i].run == v.findings[i].run
            &&& w.findings[i].category == v.findings[i].category
            &&& w.findings[i].primary == v.findings[i].primary
        }),
{
}

/// No key ports a finding: a finding to be ported after a key was one, with
/// the same draft, before it.
pub proof fn law_keys_never_port(v: AppView, key: Key, i: int)
    requires
        0 <= v.cursor,
        v.decisions.len() == v.findings.len(),
        0 <= i < v.findings.len(),
        session::is_port(on_key(v, key).0.decisions[i]),
    ensures
        on_key(v, key).0.decisions[i] == v.decisions[i],
{
}

/// `x` takes a decision back: with the cursor put back on a finding that was
/// skipped or deleted on the review screen, `x` leaves every decision as it
/// was before.
pub proof fn law_clearing_undoes_deciding(v: AppView, key: Key)
    requires
        v.mode == Mode::Review,
        !v.show_help,
        key == Key::Char('s') || key == Key::Char('d'),
        0 <= v.cursor < v.decisions.len(),
        v.decisions[v.cursor] is None,
    ensures
        ({
            let decided = on_key(v, key).0;
            let back = AppView { cursor: v.cursor, mode: Mode::Review, ..decided };
            on_key(back, Key::Char('x')).0.decisions == v.decisions
        }),
{
}

/// On the review screen `s` skips, `d` deletes and `x` clears the decision of
/// the finding under the cursor, and no other key changes a decision.
pub proof fn law_keys_decide_what_they_say(v: AppView, key: Key)
    requires
        v.mode == Mode::Review,
        !v.show_help,
        0 <= v.cursor < v.findings.len(),
        v.decisions.len() == v.findings.len(),
    ensures
        ({
            let w = on_key(v, key).0;
            &&& key == Key::Char('s') ==> w.decisions[v.cursor] == Some(Decision::Skip)
            &&& key == Key::Char('d') ==> w.decisions[v.cursor] == Some(Decision::Delete)
            &&& key == Key::Char('x') ==> w.decisions[v.cursor] is None
            &&& key != Key::Char('s') && key != Key::Char('d') && key != Key::Char('x')
                ==> w.decisions == v.decisions
            &&& w.findings == v.findings
        }),
{
}

/// Clearing a decision stays on its finding and says so.
pub proof fn law_clearing_stays(v: AppView)
    requires
        v.mode == Mode::Review,
        !v.show_help,
        0 <= v.cursor < v.findings.len(),
        v.decisions.len() == v.findings.len(),
    ensures
        ({
            let (w, action) = on_key(v, Key::Char('x'));
            &&& action == AppAction::Continue
            &&& w == (AppView {
                decisions: v.decisions.update(v.cursor, None),
                message: Some("decision cleared"@),
                ..v
            })
        }),
{
}

/// After a decision the review goes on to the next finding without one, going
/// round. Once there is none it asks for confirmation, or executes at once
/// when no confirmation is asked for.
pub proof fn law_deciding_moves_on(v: AppView, key: Key)
    requires
        v.mode == Mode::Review,
        !v.show_help,
        0 <= v.cursor < v.findings.len(),
        v.decisions.len() == v.findings.len(),
        key == Key::Char('s') || key == Key::Char('d'),
    ensures
        ({
            let (w, action) = on_key(v, key);
            let n = v.findings.len() as int;
            let all = forall|i: int|
                0 <= i < n && i != v.cursor ==> (#[trigger] v.decisions[i]) is Some;
            &&& all && v.auto_confirm ==> action == AppAction::Execute
            &&& all && !v.auto_confirm ==> action == AppAction::Continue && w.mode == Mode::Confirm
            &&& all ==> w.cursor == v.cursor && w.message == Some("all findings decided"@)
            &&& !all ==> {
                &&& action == AppAction::Continue
                &&& w.mode == Mode::Review
                &&& 0 <= w.cursor < n
                &&& w.decisions[w.cursor] is None
                &&& w.message == v.message
                &&& forall|i: int|
                    v.cursor < i < n && (i < w.cursor || w.cursor <= v.cursor) ==> (
                    #[trigger] w.decisions[i]) is Some
            }
            &&& w.wrap == v.wrap && w.show_help == v.show_help && w.auto_confirm == v.auto_confirm
        }),
{
    let ds = on_key(v, key).0.decisions;
    let n = v.findings.len() as int;
    session::law_the_next_undecided_is_the_first(ds, v.cursor);
    assert(ds[v.cursor] is Some);
    assert forall|i: int| 0 <= i < n && i != v.cursor implies ds[i] == #[trigger] v.decisions[i] by {}
    match session::next_undecided_offset(ds, v.cursor, 1) {
        Some(offset) => {
            let c = (v.cursor + offset) % n;
            assert(c != v.cursor);
            assert(v.decisions[c] is None);
            assert forall|i: int|
                v.cursor < i < n && (i < c || c <= v.cursor) implies (#[trigger] ds[i]) is Some by {
                let k = i - v.cursor;
                vstd::arithmetic::div_mod::lemma_small_mod(i as nat, n as nat);
                assert((v.cursor + k) % n == i);
                if offset <= k {
                    vstd::arithmetic::div_mod::lemma_small_mod(
                        (v.cursor + offset) as nat,
                        n as nat,
                    );
                }
                assert(ds[(v.cursor + k) % n] is Some);
            }
        },
        None => {
            assert forall|i: int| 0 <= i < n && i != v.cursor implies (#[trigger] v.decisions[i])
                is Some by {
                assert(ds[i] is Some);
            }
        },
    }
}

/// `j` and the down key go to the next finding, `k` and the up key to the one
/// before, and both stop at the ends; nothing else changes, on the review
/// screen and while the selection is edited.
pub proof fn law_moving_goes_one_finding(v: AppView, key: Key)
    requires
        v.mode == Mode::Review || v.mode == Mode::SelectionEdit,
        !v.show_help,
        0 <= v.cursor < v.findings.len(),
        key == Key::Char('j') || key == Key::Down || key == Key::Char('k') || key == Key::Up,
    ensures
        ({
            let (w, action) = on_key(v, key);
            let down = key == Key::Char('j') || key == Key::Down;
            &&& action == AppAction::Continue
            &&& w == (AppView { cursor: w.cursor, ..v })
            &&& down && v.cursor + 1 < v.findings.len() ==> w.cursor == v.cursor + 1
            &&& down && v.cursor + 1 == v.findings.len() ==> w.cursor == v.cursor
            &&& !down && v.cursor > 0 ==> w.cursor == v.cursor - 1
            &&& !down && v.cursor == 0 ==> w.cursor == 0
        }),
{
}

/// The keys that switch the view: `e` starts editing the selection, `c` goes
/// to the confirm screen, `?` opens the help, `w` turns wrapping over; each
/// changes that alone.
pub proof fn law_keys_switch_one_thing(v: AppView)
    requires
        v.mode == Mode::Review,
        !v.show_help,
    ensures
        on_key(v, Key::Char('e')) == (
            AppView { mode: Mode::SelectionEdit, ..v },
            AppAction::Continue,
        ),
        on_key(v, Key::Char('c')) == (AppView { mode: Mode::Confirm, ..v }, AppAction::Continue),
        on_key(v, Key::Char('?')) == (AppView { show_help: true, ..v }, AppAction::Continue),
        on_key(v, Key::Char('w')) == (AppView { wrap: !v.wrap, ..v }, AppAction::Continue),
{
}

/// `q` and escape leave: the help and the two inner screens go back to where
/// they were opened from, and the review itself ends, without a change, or
/// executes where no confirmation is asked for.
pub proof fn law_leaving_goes_back(v: AppView, key: Key)
    requires
        key == Key::Char('q') || key == Key::Esc,
    ensures
        ({
            let (w, action) = on_key(v, key);
            &&& v.show_help ==> w == (AppView { show_help: false, ..v }) && action
                == AppAction::Continue
            &&& !v.show_help && v.mode != Mode::Review ==> w == (AppView { mode: Mode::Review, ..v })
                && action == AppAction::Continue
            &&& !v.show_help && v.mode == Mode::Review ==> w == v && action == (
            if v.auto_confirm {
                AppAction::Execute
            } else {
                AppAction::Quit
            })
        }),
{
}

/// While the selection is edited, the left key takes one comment out of the
/// selection of the current finding, the right key adds one, and `r` selects
/// the whole run; no decision changes.
pub proof fn law_selection_keys_change_the_selection(v: AppView, key: Key)
    requires
        v.mode == Mode::SelectionEdit,
        !v.show_help,
        0 <= v.cursor < v.findings.len(),
        v.findings[v.cursor].wf(),
        v.findings[v.cursor].run.len() <= usize::MAX,
        key == Key::Left || key == Key::Right || key == Key::Char('r'),
    ensures
        ({
            let (w, action) = on_key(v, key);
            let f = v.findings[v.cursor];
            let g = w.findings[v.cursor];
            let n = f.selection.end - f.selection.start + 1;
            let m = g.selection.end - g.selection.start + 1;
            &&& action == AppAction::Continue
            &&& w == (AppView { findings: v.findings.update(v.cursor, g), ..v })
            &&& g.run == f.run && g.primary == f.primary && g.category == f.category
            &&& g.selection.start <= f.primary <= g.selection.end < f.run.len()
            &&& key == Key::Left ==> m == (if n > 1 {
                n - 1
            } else {
                n
            })
            &&& key == Key::Right ==> m == (if n < f.run.len() {
                n + 1
            } else {
                n
            })
            &&& key == Key::Char('r') ==> m == f.run.len()
        }),
{
    let f = v.findings[v.cursor];
    model::law_shrinking_takes_one_comment(f);
    model::law_growing_adds_one_comment(f);
    model::law_resetting_selects_all(f, f.primary);
    model::law_resetting_selects_all(f, 0);
    model::law_resetting_selects_all(f, f.run.len() - 1);
}

/// On the confirm screen `y` executes and `b` goes back to the review; every
/// other key but the leaving ones does nothing.
pub proof fn law_confirming_executes(v: AppView, key: Key)
    requires
        v.mode == Mode::Confirm,
        !v.show_help,
    ensures
        on_key(v, Key::Char('y')) == (v, AppAction::Execute),
        on_key(v, Key::Char('b')) == (AppView { mode: Mode::Review, ..v }, AppAction::Continue),
        key != Key::Char('y') && key != Key::Char('b') && key != Key::Char('q') && key != Key::Esc
            ==> on_key(v, key) == (v, AppAction::Continue),
{
}

/// The help is closed by `?`, and any key that is not one of a screen does
/// nothing there.
pub proof fn law_other_keys_do_nothing(v: AppView, key: Key)
    ensures
        v.show_help ==> on_key(v, Key::Char('?')) == (
            AppView { show_help: false, ..v },
            AppAction::Continue,
        ),
        key == Key::Other ==> on_key(v, key) == (v, AppAction::Continue),
        !v.show_help && v.mode == Mode::Review && (key == Key::Left || key == Key::Right || (
        key matches Key::Char(c) && !seq![
            's',
            'd',
            'x',
            'e',
            'j',
            'k',
            'c',
            'w',
            '?',
            'q',
        ].contains(c))) ==> on_key(v, key) == (v, AppAction::Continue),
        !v.show_help && v.mode == Mode::SelectionEdit && (key matches Key::Char(c) && !seq![
            'r',
            'q',
            'j',
            'k',
        ].contains(c)) ==> on_key(v, key) == (v, AppAction::Continue),
{
    let review = seq!['s', 'd', 'x', 'e', 'j', 'k', 'c', 'w', '?', 'q'];
    let select = seq!['r', 'q', 'j', 'k'];
    assert(review[0] == 's' && review[1] == 'd' && review[2] == 'x' && review[3] == 'e' && review[4]
        == 'j' && review[5] == 'k' && review[6] == 'c' && review[7] == 'w' && review[8] == '?'
        && review[9] == 'q');
    assert(select[0] == 'r' && select[1] == 'q' && select[2] == 'j' && select[3] == 'k');
}

// ---------------------------------------------------------------------------
// The app
// ---------------------------------------------------------------------------

/// Whether `c` is the context window of a finding in `source`.
pub open spec fn is_context(
    c: Context,
    source: Seq<char>,
    f: model::FindingView,
    before: int,
    after: int,
) -> bool {
    &&& order::views(c.lines@) == context::window(
        text::lines_of(source),
        context::selected_lines(f).0,
        context::selected_lines(f).1,
        before,
        after,
    )
    &&& (c.selection.start as int, c.selection.end as int) == f.selected()
}

impl PortApp {
    /// Whether the session and its findings are well formed and every finding
    /// has its source text.
    pub open spec fn ready(self) -> bool {
        &&& self.session.wf()
        &&& scan::all_wf(self.session.findings@)
        &&& self.sources@.len() == self.session.findings@.len()
    }

    /// Whether every finding has its current context window.
    pub open spec fn has_contexts(self) -> bool {
        &&& self.contexts@.len() == self.session.findings@.len()
        &&& forall|i: int|
            0 <= i < self.contexts@.len() ==> is_context(
                #[trigger] self.contexts@[i],
                self.sources@[i]@,
                self.session.findings@[i]@,
                self.context_lines.0 as int,
                self.context_lines.1 as int,
            )
    }

    /// What holds of an app between keys.
    pub open spec fn wf(self) -> bool {
        self.ready() && self.has_contexts()
    }

    /// What no key changes.
    pub open spec fn same_frame(self, other: PortApp) -> bool {
        &&& self.session.commit == other.session.commit
        &&& self.dry_run == other.dry_run
        &&& self.sources == other.sources
        &&& self.root == other.root
        &&& self.context_lines == other.context_lines
    }

    /// Builds the app for a session over the scanned findings. `sources` are
    /// the texts of the findings' files, in the order of the findings.
    pub fn new(session: Session, ctx: &ScanContext, sources: Vec<String>) -> (r: Self)
        requires
            session.wf(),
            scan::all_wf(session.findings@),
            sources@.len() == session.findings@.len(),
        ensures
            r.wf(),
            r.session == session,
            r.sources == sources,
            r.root == ctx.repo.root,
            r.context_lines == (ctx.config.context.before, ctx.config.context.after),
            r.wrap == ctx.config.context.wrap,
            r.mode == Mode::Review,
            r.message is None,
            !r.show_help,
            !r.dry_run,
            !r.auto_confirm,
    {
        let mut app = PortApp {
            session,
            contexts: Vec::new(),
            mode: Mode::Review,
            message: None,
            show_help: false,
            dry_run: false,
            auto_confirm: false,
            sources,
            root: ctx.repo.root.clone(),
            context_lines: (ctx.config.context.before, ctx.config.context.after),
            wrap: ctx.config.context.wrap,
        };
        app.refresh_contexts();
        app
    }

    /// Recomputes context windows for every finding (also picks up
    /// selection edits).
    pub fn refresh_contexts(&mut self)
        requires
            old(self).ready(),
        ensures
            final(self).wf(),
            final(self)@ == old(self)@,
            final(self).session == old(self).session,
            final(self).message == old(self).message,
            final(self).same_frame(*old(self)),
    {
        let mut contexts: Vec<Context> = Vec::new();
        let mut i: usize = 0;
        while i < self.session.findings.len()
            invariant
                *self == *old(self),
                self.ready(),
                i <= self.session.findings.len(),
                contexts@.len() == i,
                forall|k: int|
                    0 <= k < i ==> is_context(
                        #[trigger] contexts@[k],
                        self.sources@[k]@,
                        self.session.findings@[k]@,
                        self.context_lines.0 as int,
                        self.context_lines.1 as int,
                    ),
            decreases self.session.findings.len() - i,
        {
            let finding = &self.session.findings[i];
            assert(self.session.findings@[i as int]@.wf());
            contexts.push(
                extract_context(
                    self.sources[i].as_str(),
                    finding,
                    self.context_lines.0,
                    self.context_lines.1,
                ),
            );
            i += 1;
        }
        self.contexts = contexts;
    }

    /// The source text of the file of the finding at `index`.
    pub fn source_of(&self, index: usize) -> (r: &str)
        requires
            index < self.sources@.len(),
        ensures
            r@ == self.sources@[index as int]@,
    {
        self.sources[index].as_str()
    }

    /// The currently shown finding, if any.
    pub fn current(&self) -> (r: Option<&Finding>)
        ensures
            match r {
                Some(f) => self.session.cursor < self.session.findings@.len() && *f
                    == self.session.findings@[self.session.cursor as int],
                None => self.session.cursor >= self.session.findings@.len(),
            },
    {
        self.session.current()
    }

    /// Handles one key, mutating state and returning what the user asked for.
    pub fn handle_key(&mut self, key: Key) -> (r: AppAction)
        requires
            old(self).wf(),
        ensures
            final(self).wf(),
            final(self).same_frame(*old(self)),
            (final(self)@, r) == on_key(old(self)@, key),
    {
        if self.show_help {
            match key {
                Key::Esc | Key::Char('?') | Key::Char('q') => {
                    self.show_help = false;
                },
                _ => {},
            }
            return AppAction::Continue;
        }
        match self.mode {
            Mode::SelectionEdit => self.handle_selection_key(key),
            Mode::Confirm => self.handle_confirm_key(key),
            Mode::Review => self.handle_review_key(key),
        }
    }

    fn handle_review_key(&mut self, key: Key) -> (r: AppAction)
        requires
            old(self).wf(),
        ensures
            final(self).wf(),
            final(self).same_frame(*old(self)),
            (final(self)@, r) == on_review_key(old(self)@, key),
    {
        match key {
            Key::Char('s') => {
                self.decide(Decision::Skip);
                self.advance()
            },
            Key::Char('d') => {
                self.decide(Decision::Delete);
                self.advance()
            },
            Key::Char('x') => {
                self.undecide();
                self.message = Some("decision cleared".to_owned());
                AppAction::Continue
            },
            Key::Char('e') => {
                self.mode = Mode::SelectionEdit;
                AppAction::Continue
            },
            Key::Char('j') | Key::Down => {
                self.session.navigate(1);
                AppAction::Continue
            },
            Key::Char('k') | Key::Up => {
                self.session.navigate(-1);
                AppAction::Continue
            },
            Key::Char('c') => {
                self.mode = Mode::Confirm;
                AppAction::Continue
            },
            Key::Char('w') => {
                self.wrap = !self.wrap;
                AppAction::Continue
            },
            Key::Char('?') => {
                self.show_help = true;
                AppAction::Continue
            },
            Key::Char('q') | Key::Esc => if self.auto_confirm {
                AppAction::Execute
            } else {
                AppAction::Quit
            },
            _ => AppAction::Continue,
        }
    }

    fn handle_selection_key(&mut self, key: Key) -> (r: AppAction)
        requires
            old(self).wf(),
        ensures
            final(self).wf(),
            final(self).same_frame(*old(self)),
            (final(self)@, r) == on_selection_key(old(self)@, key),
    {
        match key {
            Key::Left | Key::Right | Key::Char('r') => {
                self.change_selection(key);
                AppAction::Continue
            },
            Key::Char('q') | Key::Esc => {
                self.mode = Mode::Review;
                AppAction::Continue
            },
            Key::Char('j') | Key::Down => {
                self.session.navigate(1);
                AppAction::Continue
            },
            Key::Char('k') | Key::Up => {
                self.session.navigate(-1);
                AppAction::Continue
            },
            _ => AppAction::Continue,
        }
    }

    fn handle_confirm_key(&mut self, key: Key) -> (r: AppAction)
        requires
            old(self).wf(),
        ensures
            final(self).wf(),
            final(self).same_frame(*old(self)),
            (final(self)@, r) == on_confirm_key(old(self)@, key),
    {
        match key {
            Key::Char('y') => AppAction::Execute,
            Key::Char('b') | Key::Char('q') | Key::Esc => {
                self.mode = Mode::Review;
                AppAction::Continue
            },
            _ => AppAction::Continue,
        }
    }

    /// Shrinks, grows or resets the selection of the current finding.
    fn change_selection(&mut self, key: Key)
        requires
            old(self).wf(),
            key == Key::Left || key == Key::Right || key == Key::Char('r'),
        ensures
            final(self).wf(),
            final(self).same_frame(*old(self)),
            final(self)@ == on_selection_key(old(self)@, key).0,
    {
        let cursor: usize = self.session.cursor;
        if cursor >= self.session.findings.len() {
            return ;
        }
        let ghost before = self.session.findings@;
        let mut finding = self.session.findings[cursor].clone();
        assert(before[cursor as int]@.wf());
        match key {
            Key::Left => {
                finding.shrink_selection();
            },
            Key::Right => {
                finding.grow_selection();
            },
            _ => {
                finding.reset_selection();
            },
        }
        self.session.findings.set(cursor, finding);
        assert(order::views(self.session.findings@) == order::views(before).update(
            cursor as int,
            finding@,
        ));
        self.refresh_contexts();
    }

    /// Records the decision for the current finding.
    fn decide(&mut self, decision: Decision)
        requires
            old(self).wf(),
        ensures
            final(self).wf(),
            final(self).same_frame(*old(self)),
            final(self)@ == old(self)@.decide(Some(decision)),
    {
        self.session.set_current_decision(decision);
    }

    /// Clears the current decision (leaves it undecided).
    fn undecide(&mut self)
        requires
            old(self).wf(),
        ensures
            final(self).wf(),
            final(self).same_frame(*old(self)),
            final(self)@ == old(self)@.decide(None),
    {
        let cursor: usize = self.session.cursor();
        self.session.clear_decision(cursor);
    }

    /// Moves to the next finding after a decision; when everything is
    /// decided, jumps to the confirm screen (or executes directly with
    /// `--yes`).
    fn advance(&mut self) -> (r: AppAction)
        requires
            old(self).wf(),
        ensures
            final(self).wf(),
            final(self).same_frame(*old(self)),
            (final(self)@, r) == old(self)@.advance(),
    {
        if self.session.next_undecided() {
            return AppAction::Continue;
        }
        self.message = Some("all findings decided".to_owned());
        if self.auto_confirm {
            AppAction::Execute
        } else {
            self.mode = Mode::Confirm;
            AppAction::Continue
        }
    }
}

// ---------------------------------------------------------------------------
// Drafts
// ---------------------------------------------------------------------------

/// How many bytes of a comment's first line make a title.
pub const TITLE_BYTES: usize = 72;

/// A line as a title: a longer one is cut and ends in `...`.
pub open spec fn short_title(line: Seq<char>) -> Seq<char> {
    if text::byte_len(line) > TITLE_BYTES {
        text::cut_to(line, TITLE_BYTES as int) + "..."@
    } else {
        line
    }
}

/// The issue body made of a comment.
pub open spec fn ported_text(c: model::CommentView) -> Seq<char> {
    "Ported from `"@ + c.path + ":"@ + text::decimal(c.line as nat) + "`\n\n```\n"@
        + text::trim_both(c.text) + "\n```\n"@
}

/// The draft prefilled from a finding; an empty comment makes none.
pub open spec fn prefilled(f: model::FindingView, commit: Seq<char>) -> Option<draft::DraftView> {
    let c = f.run[f.primary];
    match text::first_line(c.text) {
        None => None,
        Some(line) => Some(
            draft::DraftView {
                category: f.category,
                path: c.path,
                commit,
                title: short_title(text::trim_both(line)),
                description: ported_text(c),
            },
        ),
    }
}

/// Trimming drops a whitespace character at the end.
proof fn lemma_trim_push(s: Seq<char>, c: char)
    requires
        text::is_white(c),
    ensures
        text::trim_both(s.push(c)) == text::trim_both(s),
{
    lemma_trim_left_push(s, c);
    if text::is_blank(s) {
        text::lemma_trim_left(s, s.len() as int);
        assert(s.skip(s.len() as int) == Seq::<char>::empty());
    } else {
        let l = text::trim_left(s);
        assert(l.push(c).drop_last() == l);
    }
}

proof fn lemma_trim_left_push(s: Seq<char>, c: char)
    requires
        text::is_white(c),
    ensures
        text::is_blank(s) ==> text::trim_left(s.push(c)) == Seq::<char>::empty(),
        !text::is_blank(s) ==> text::trim_left(s.push(c)) == text::trim_left(s).push(c),
    decreases s.len(),
{
    let t = s.push(c);
    if s.len() == 0 {
        assert(t.drop_first() == Seq::<char>::empty());
        reveal_with_fuel(text::trim_left, 2);
    } else {
        assert(t[0] == s[0]);
        if text::is_white(s[0]) {
            assert(t.drop_first() == s.drop_first().push(c));
            lemma_trim_left_push(s.drop_first(), c);
            if text::is_blank(s) {
                assert forall|k: int| 0 <= k < s.drop_first().len() implies text::is_white(
                    #[trigger] s.drop_first()[k],
                ) by {
                    assert(text::is_white(s[k + 1]));
                }
            } else {
                let k = choose|k: int| 0 <= k < s.len() && !text::is_white(#[trigger] s[k]);
                assert(!text::is_white(s.drop_first()[k - 1]));
            }
        }
    }
}

/// The draft of a finding is made of its matched comment, and there is one
/// wherever that comment has a text. The title is the comment's first line,
/// trimmed, or as much of its start as fits in 72 bytes, with dots behind it.
/// The description cites the comment's path and line and holds its trimmed
/// text.
pub proof fn law_drafts_tell_of_the_match(f: model::FindingView, commit: Seq<char>)
    requires
        0 <= f.primary < f.run.len(),
    ensures
        ({
            let c = f.run[f.primary];
            match prefilled(f, commit) {
                None => c.text.len() == 0,
                Some(d) => {
                    &&& c.text.len() > 0
                    &&& d.category == f.category
                    &&& d.path == c.path
                    &&& d.commit == commit
                    &&& exists|n: int| #[trigger] is_title(d.title, c.text, n)
                    &&& d.description == "Ported from `"@ + c.path + ":"@ + text::decimal(
                        c.line as nat,
                    ) + "`\n\n```\n"@ + text::trim_both(c.text) + "\n```\n"@
                },
            }
        }),
{
    let c = f.run[f.primary];
    if c.text.len() > 0 {
        let n = text::newline_from(c.text, 0);
        text::lemma_newline_from(c.text, 0);
        let raw = c.text.take(n);
        let line = text::first_line(c.text)->0;
        assert(c.text.subrange(0, n) == raw);
        assert(c.text.skip(0) == c.text);
        if n < c.text.len() && raw.len() > 0 && raw.last() == '\r' {
            assert(line == raw.drop_last());
            assert(raw == line.push('\r'));
            lemma_trim_push(line, '\r');
        } else {
            assert(n == c.text.len() ==> raw == c.text);
            assert(line == raw);
        }
        let l = text::trim_both(raw);
        text::law_cuts_fit(l, 72);
        let d = prefilled(f, commit)->0;
        assert(text::trim_both(line) == l);
        assert(is_title(d.title, c.text, n));
    }
}

/// Whether `title` is made of the first `n` characters of `body`, which are
/// its first line: all of them, trimmed, or as many as fit in 72 bytes with
/// dots behind them.
pub open spec fn is_title(title: Seq<char>, body: Seq<char>, n: int) -> bool {
    let l = text::trim_both(body.take(n));
    &&& 0 <= n <= body.len()
    &&& n < body.len() ==> body[n] == '\n'
    &&& forall|k: int| 0 <= k < n ==> body[k] != '\n'
    &&& if text::byte_len(l) <= 72 {
        title == l
    } else {
        exists|k: int|
            {
                &&& 0 <= k < l.len()
                &&& title == #[trigger] l.take(k) + "..."@
                &&& text::byte_len(l.take(k)) <= 72
                &&& text::byte_len(l.take(k + 1)) > 72
            }
    }
}

/// The content of an optional draft.
pub open spec fn draft_option(d: Option<IssueDraft>) -> Option<draft::DraftView> {
    match d {
        Some(d) => Some(d@),
        None => None,
    }
}

/// The draft prefilled from a finding; an empty comment makes none.
pub fn prefill_draft(finding: &Finding, commit: &str) -> (r: Option<IssueDraft>)
    requires
        finding.primary < finding@.run.len(),
    ensures
        draft_option(r) == prefilled(finding@, commit@),
{
    let comment = &finding.run.comments[finding.primary];
    assert(comment@ == finding@.run[finding.primary as int]);
    let cs = text::chars_of(comment.text.as_str());
    let line = match text::first_line_chars(&cs) {
        Some(line) => text::trim_chars(&line),
        None => {
            return None;
        },
    };
    let bytes: usize = text::str_bytes(text::string_of(&line).as_str());
    let title = if bytes > TITLE_BYTES {
        let mut s = text::string_of(&text::cut_chars(&line, TITLE_BYTES));
        s.append("...");
        s
    } else {
        text::string_of(&line)
    };
    let mut description = "Ported from `".to_owned();
    description.append(comment.path.as_str());
    description.append(":");
    let number = text::decimal_string(comment.line);
    description.append(number.as_str());
    description.append("`\n\n```\n");
    let body = text::string_of(&text::trim_chars(&cs));
    description.append(body.as_str());
    description.append("\n```\n");
    Some(
        IssueDraft {
            category: finding.category.clone(),
            path: comment.path.clone(),
            commit: commit.to_owned(),
            title,
            description,
        },
    )
}

/// A snippet is the text of its lines with line feeds between them.
pub proof fn law_snippets_are_their_lines(ls: Seq<context::LineView>, l: context::LineView)
    ensures
        window_text(Seq::empty()) == Seq::<char>::empty(),
        ls.len() == 0 ==> window_text(ls.push(l)) == l.text,
        ls.len() > 0 ==> window_text(ls.push(l)) == window_text(ls) + "\n"@ + l.text,
{
    let f = |x: context::LineView| x.text;
    let all = ls.push(l).map_values(f);
    assert(all.drop_last() == ls.map_values(f));
    assert(all.last() == l.text);
}

/// The lines of a context window as one text.
pub open spec fn window_text(ls: Seq<context::LineView>) -> Seq<char> {
    text::joined_texts(ls.map_values(|l: context::LineView| l.text), "\n"@)
}

impl PortApp {
    /// The draft for the current finding, prefilled from the comment text.
    pub fn prefilled_draft(&self) -> (r: Option<IssueDraft>)
        requires
            self.wf(),
        ensures
            draft_option(r) == (if self@.cursor < self@.findings.len() {
                prefilled(self@.current(), self.session.commit@)
            } else {
                None
            }),
    {
        match self.current() {
            Some(finding) => prefill_draft(finding, self.session.commit.as_str()),
            None => None,
        }
    }

    /// The snippet for the current finding, as embedded in drafts.
    pub fn current_snippet(&self) -> (r: Option<ContextSnippet>)
        requires
            self.wf(),
        ensures
            match r {
                Some(snippet) => {
                    &&& self@.cursor < self@.findings.len()
                    &&& snippet.language@ == self@.current().run[self@.current().primary].language
                    &&& snippet.text@ == window_text(
                        order::views(self.contexts@[self@.cursor].lines@),
                    )
                },
                None => self@.cursor >= self@.findings.len(),
            },
    {
        let finding = match self.current() {
            Some(finding) => finding,
            None => {
                return None;
            },
        };
        let context = &self.contexts[self.session.cursor];
        let ghost ls = order::views(context.lines@);
        let ghost all = ls.map_values(|l: context::LineView| l.text);
        let mut lines: Vec<String> = Vec::new();
        let mut i: usize = 0;
        while i < context.lines.len()
            invariant
                i <= context.lines.len(),
                ls == order::views(context.lines@),
                all == ls.map_values(|l: context::LineView| l.text),
                text::texts(lines@) == all.take(i as int),
            decreases context.lines.len() - i,
        {
            let line = context.lines[i].text.clone();
            let ghost before = text::texts(lines@);
            lines.push(line);
            assert(text::texts(lines@) == before.push(line@));
            assert(all.take(i + 1) == all.take(i as int).push(all[i as int]));
            i += 1;
        }
        assert(all.take(all.len() as int) == all);
        let primary = &finding.run.comments[finding.primary];
        assert(primary@ == finding@.run[finding.primary as int]);
        Some(
            ContextSnippet {
                language: primary.language.clone(),
                text: text::join_strings(&lines, "\n"),
            },
        )
    }
}

// ---------------------------------------------------------------------------
// The loop
// ---------------------------------------------------------------------------

/// What the review loop has to do after a key.
#[derive(Debug, PartialEq, Eq)]
pub enum UiRequest {
    /// Draw the screen again and read the next key.
    Redraw,
    /// Run an editor session on a draft, then call [`PortApp::finish_edit`].
    Edit {
        /// The draft to start from.
        draft: IssueDraft,
        /// The snippet embedded in it.
        snippet: ContextSnippet,
    },
    /// Open a file for reading only, then call [`PortApp::finish_view`].
    Open {
        /// The repository-relative path.
        path: String,
        /// The line to show.
        line: usize,
    },
    /// Leave the review and execute the session.
    Execute,
    /// Leave the review without changing anything.
    Quit,
}

/// The content of a [`UiRequest`].
pub enum RequestView {
    Redraw,
    Edit { draft: draft::DraftView, language: Seq<char> },
    Open { path: Seq<char>, line: int },
    Execute,
    Quit,
}

impl View for UiRequest {
    type V = RequestView;

    open spec fn view(&self) -> RequestView {
        match self {
            UiRequest::Redraw => RequestView::Redraw,
            UiRequest::Edit { draft, snippet } => RequestView::Edit {
                draft: draft@,
                language: snippet.language@,
            },
            UiRequest::Open { path, line } => RequestView::Open {
                path: path@,
                line: *line as int,
            },
            UiRequest::Execute => RequestView::Execute,
            UiRequest::Quit => RequestView::Quit,
        }
    }
}

/// What the loop does after a key that was not an editor key.
pub open spec fn request_of(action: AppAction) -> RequestView {
    match action {
        AppAction::Continue => RequestView::Redraw,
        AppAction::Execute => RequestView::Execute,
        AppAction::Quit => RequestView::Quit,
    }
}

/// What a key press does in the review loop: `p` and `o` start editor
/// sessions on every screen, every other key is handled by the app.
pub open spec fn on_press(v: AppView, commit: Seq<char>, key: Key) -> (AppView, RequestView) {
    if key == Key::Char('p') {
        let draft = if v.cursor < v.findings.len() {
            prefilled(v.current(), commit)
        } else {
            None
        };
        match draft {
            None => (v.say("nothing to port here"@), RequestView::Redraw),
            Some(draft) => (
                v,
                RequestView::Edit { draft, language: v.current().run[v.current().primary].language },
            ),
        }
    } else if key == Key::Char('o') {
        if v.cursor < v.findings.len() {
            (
                v,
                RequestView::Open {
                    path: v.current().run[0].path,
                    line: v.current().run[v.current().primary].line,
                },
            )
        } else {
            (v, RequestView::Redraw)
        }
    } else {
        (on_key(v, key).0, request_of(on_key(v, key).1))
    }
}

/// `p` asks for an editor on the draft of the current finding, whatever the
/// screen, and `o` for a view of the file at the matched comment's line; both
/// change nothing but a message.
pub proof fn law_editor_keys_ask_for_editors(v: AppView, commit: Seq<char>, key: Key)
    requires
        0 <= v.cursor,
        v.cursor < v.findings.len() ==> v.findings[v.cursor].wf(),
    ensures
        ({
            let (w, r) = on_press(v, commit, key);
            let f = v.findings[v.cursor];
            &&& key == Key::Char('p') || key == Key::Char('o') ==> w == (
            AppView { message: w.message, ..v })
            &&& key == Key::Char('p') && v.cursor < v.findings.len() && f.run[f.primary].text.len()
                > 0 ==> {
                &&& w == v
                &&& r matches RequestView::Edit { draft, language }
                &&& prefilled(f, commit) == Some(draft)
                &&& language == f.run[f.primary].language
            }
            &&& key == Key::Char('p') && (v.cursor >= v.findings.len()
                || f.run[f.primary].text.len() == 0) ==> r is Redraw && w.message == Some(
                "nothing to port here"@,
            )
            &&& key == Key::Char('o') && v.cursor < v.findings.len() ==> w == v && r
                == (RequestView::Open { path: f.run[0].path, line: f.run[f.primary].line })
            &&& key == Key::Char('o') && v.cursor >= v.findings.len() ==> w == v && r is Redraw
            &&& r is Execute || r is Quit ==> key != Key::Char('p') && key != Key::Char('o')
            &&& key != Key::Char('p') && key != Key::Char('o') ==> {
                &&& w == on_key(v, key).0
                &&& r is Execute <==> on_key(v, key).1 == AppAction::Execute
                &&& r is Quit <==> on_key(v, key).1 == AppAction::Quit
                &&& r is Redraw <==> on_key(v, key).1 == AppAction::Continue
            }
        }),
{
}

/// What the outcome of an editor session does.
pub open spec fn after_edit(v: AppView, outcome: DraftOutcome) -> AppView {
    match outcome {
        DraftOutcome::Drafted(draft) => v.decide(Some(Decision::Port(draft))).say(
            "drafted; s/d/x can change this decision"@,
        ),
        DraftOutcome::Aborted => v.say("draft aborted; nothing changed"@),
    }
}

/// A finished draft makes the current finding one to be ported with that very
/// draft; an aborted one changes no decision. No other finding is touched.
pub proof fn law_drafts_are_decided_on(v: AppView, outcome: DraftOutcome)
    requires
        0 <= v.cursor < v.findings.len(),
        v.decisions.len() == v.findings.len(),
    ensures
        ({
            let w = after_edit(v, outcome);
            &&& w == (AppView { decisions: w.decisions, message: w.message, ..v })
            &&& outcome matches DraftOutcome::Drafted(draft) ==> w.decisions == v.decisions.update(
                v.cursor,
                Some(Decision::Port(draft)),
            )
            &&& outcome is Aborted ==> w.decisions == v.decisions
        }),
{
}

impl PortApp {
    /// Takes one key press of the review loop.
    pub fn press(&mut self, key: Key) -> (r: UiRequest)
        requires
            old(self).wf(),
        ensures
            final(self).wf(),
            final(self).same_frame(*old(self)),
            (final(self)@, r@) == on_press(old(self)@, old(self).session.commit@, key),
            r matches UiRequest::Edit { draft, snippet } ==> snippet.text@ == window_text(
                order::views(old(self).contexts@[old(self)@.cursor].lines@),
            ),
    {
        match key {
            Key::Char('p') => {
                let draft = match self.prefilled_draft() {
                    Some(draft) => draft,
                    None => {
                        self.message = Some("nothing to port here".to_owned());
                        return UiRequest::Redraw;
                    },
                };
                match self.current_snippet() {
                    Some(snippet) => UiRequest::Edit { draft, snippet },
                    None => UiRequest::Redraw,
                }
            },
            Key::Char('o') => match self.current() {
                Some(finding) => {
                    assert(finding@.wf());
                    UiRequest::Open { path: finding.path().clone(), line: finding.line() }
                },
                None => UiRequest::Redraw,
            },
            _ => match self.handle_key(key) {
                AppAction::Continue => UiRequest::Redraw,
                AppAction::Execute => UiRequest::Execute,
                AppAction::Quit => UiRequest::Quit,
            },
        }
    }

    /// Takes the outcome of an editor session on the current finding's draft.
    pub fn finish_edit(&mut self, outcome: DraftOutcome)
        requires
            old(self).wf(),
        ensures
            final(self).wf(),
            final(self).same_frame(*old(self)),
            final(self)@ == after_edit(old(self)@, outcome),
    {
        match outcome {
            DraftOutcome::Drafted(draft) => {
                self.decide(Decision::Port(draft));
                self.message = Some("drafted; s/d/x can change this decision".to_owned());
            },
            DraftOutcome::Aborted => {
                self.message = Some("draft aborted; nothing changed".to_owned());
            },
        }
    }

    /// Takes the outcome of a read-only view: the reason it failed, if it did.
    pub fn finish_view(&mut self, failure: Option<String>)
        requires
            old(self).wf(),
        ensures
            final(self).wf(),
            final(self).same_frame(*old(self)),
            final(self)@ == old(self)@.say(
                match failure {
                    None => "read-only view closed"@,
                    Some(reason) => "editor failed: "@ + reason@,
                },
            ),
    {
        match failure {
            None => {
                self.message = Some("read-only view closed".to_owned());
            },
            Some(reason) => {
                let mut s = "editor failed: ".to_owned();
                s.append(reason.as_str());
                self.message = Some(s);
            },
        }
    }
}

// ---------------------------------------------------------------------------
// What the screens show
// ---------------------------------------------------------------------------

/// The lines of the help overlay.
pub const HELP: [&'static str; 12] = [
    "p  port the comment to an issue (opens the editor)",
    "o  open the file read-only in the editor",
    "s  skip the comment",
    "d  delete the comment without creating an issue",
    "x  clear the decision for this finding",
    "e  edit the selected comment range",
    "j/k  next / previous finding",
    "c  go to the confirmation screen",
    "q  quit (no changes)",
    "",
    "selection editing: ← shrink · → grow · r reset · esc done",
    "confirmation:      y execute · b back to review",
];

/// The mark of a decision in the header.
pub open spec fn badge_of(d: Option<Decision>) -> Seq<char> {
    match d {
        Some(d) => " ["@ + session::label_of(d) + "]"@,
        None => Seq::empty(),
    }
}

/// The title of the review screen.
pub open spec fn title_of(v: AppView) -> Seq<char> {
    let c = v.current().run[v.current().primary];
    " "@ + text::decimal((v.cursor + 1) as nat) + "/"@ + text::decimal(v.findings.len()) + " — "@
        + c.path + ":"@ + text::decimal(c.line as nat) + ": "@ + v.current().category + badge_of(
        v.decisions[v.cursor],
    ) + (if v.mode == Mode::SelectionEdit {
        " (selecting)"@
    } else {
        Seq::empty()
    })
}

/// The keys of a screen.
pub open spec fn hint_of(mode: Mode) -> Seq<char> {
    match mode {
        Mode::Review =>
        "p port · s skip · d delete · o view · e select · j/k nav · c confirm · ? help · q quit"@,
        Mode::SelectionEdit => "← shrink · → grow · r reset · j/k nav · esc done"@,
        Mode::Confirm => "y execute · b back · q quit"@,
    }
}

/// The footer of the review screen.
pub open spec fn footer_of(v: AppView) -> Seq<char> {
    match v.message {
        Some(message) => message + "  —  "@ + hint_of(v.mode),
        None => hint_of(v.mode),
    }
}

/// The content of a [`ConfirmRow`].
#[verifier::ext_equal]
pub struct RowView {
    pub number: int,
    pub path: Seq<char>,
    pub category: Seq<char>,
    pub action: Seq<char>,
    pub title: Seq<char>,
}

/// One row of the confirm screen.
#[derive(Debug, PartialEq, Eq)]
pub struct ConfirmRow {
    /// The number of the finding, from 1.
    pub number: usize,
    /// The repository-relative path.
    pub path: String,
    /// The matched category.
    pub category: String,
    /// What will be done.
    pub action: &'static str,
    /// The title of the issue to be created.
    pub title: String,
}

impl View for ConfirmRow {
    type V = RowView;

    open spec fn view(&self) -> RowView {
        RowView {
            number: self.number as int,
            path: self.path@,
            category: self.category@,
            action: self.action@,
            title: self.title@,
        }
    }
}

/// The footer shows the message, when there is one, and the keys of the
/// screen.
pub proof fn law_the_footer_shows_message_and_keys(v: AppView)
    ensures
        ({
            let keys = match v.mode {
                Mode::Review =>
                "p port · s skip · d delete · o view · e select · j/k nav · c confirm · ? help · q quit"@,
                Mode::SelectionEdit => "← shrink · → grow · r reset · j/k nav · esc done"@,
                Mode::Confirm => "y execute · b back · q quit"@,
            };
            &&& v.message matches Some(m) ==> footer_of(v) == m + "  —  "@ + keys
            &&& v.message is None ==> footer_of(v) == keys
        }),
{
}

/// Row `i` of the confirm screen.
pub open spec fn row_of(v: AppView, i: int) -> RowView {
    RowView {
        number: i + 1,
        path: v.findings[i].run[v.findings[i].primary].path,
        category: v.findings[i].category,
        action: match v.decisions[i] {
            Some(d) => session::label_of(d),
            None => "undecided"@,
        },
        title: match v.decisions[i] {
            Some(Decision::Port(draft)) => draft.title@,
            _ => Seq::empty(),
        },
    }
}

/// A row of the confirm screen shows the number of the finding, where its
/// matched comment is, what will be done, and the title of an issue to be
/// created.
pub proof fn law_rows_show_the_decision(v: AppView, i: int)
    requires
        0 <= i < v.findings.len(),
        v.decisions.len() == v.findings.len(),
    ensures
        ({
            let r = row_of(v, i);
            let f = v.findings[i];
            &&& r.number == i + 1
            &&& r.path == f.run[f.primary].path
            &&& r.category == f.category
            &&& match v.decisions[i] {
                None => r.action == "undecided"@ && r.title.len() == 0,
                Some(Decision::Skip) => r.action == "skip"@ && r.title.len() == 0,
                Some(Decision::Delete) => r.action == "delete"@ && r.title.len() == 0,
                Some(Decision::Port(draft)) => r.action == "port"@ && r.title == draft.title@,
            }
        }),
{
}

/// The title of the review screen tells which finding of how many is shown,
/// where its matched comment is, its category and what was decided.
pub proof fn law_the_title_tells_the_finding(v: AppView)
    requires
        0 <= v.cursor < v.findings.len(),
        v.decisions.len() == v.findings.len(),
    ensures
        ({
            let f = v.findings[v.cursor];
            let c = f.run[f.primary];
            let head = " "@ + text::decimal((v.cursor + 1) as nat) + "/"@ + text::decimal(
                v.findings.len(),
            ) + " — "@ + c.path + ":"@ + text::decimal(c.line as nat) + ": "@ + f.category;
            let badge = match v.decisions[v.cursor] {
                None => Seq::empty(),
                Some(Decision::Skip) => " ["@ + "skip"@ + "]"@,
                Some(Decision::Delete) => " ["@ + "delete"@ + "]"@,
                Some(Decision::Port(_)) => " ["@ + "port"@ + "]"@,
            };
            let tail = if v.mode == Mode::SelectionEdit {
                " (selecting)"@
            } else {
                Seq::empty()
            };
            title_of(v) == head + badge + tail
        }),
{
}

/// One character of the context area and how it is drawn.
#[derive(Debug, Clone, Copy, PartialEq, Eq)]
pub struct StyledChar {
    /// The character.
    pub ch: char,
    /// Its color, where the syntax gives one.
    pub fg: Option<(u8, u8, u8)>,
    /// Whether it is italic.
    pub italic: bool,
    /// Whether the selection covers it.
    pub selected: bool,
}

/// The content of a [`StyledLine`].
#[verifier::ext_equal]
pub struct StyledView {
    pub gutter: Seq<char>,
    pub chars: Seq<StyledChar>,
}

/// One line of the context area.
#[derive(Debug, PartialEq, Eq)]
pub struct StyledLine {
    /// The marker and the line number.
    pub gutter: String,
    /// The characters of the line.
    pub chars: Vec<StyledChar>,
}

impl View for StyledLine {
    type V = StyledView;

    open spec fn view(&self) -> StyledView {
        StyledView { gutter: self.gutter@, chars: self.chars@ }
    }
}

/// How the character `ch` at byte `offset` of the file is drawn.
pub open spec fn styled_char(
    ch: char,
    spans: Seq<HighlightSpan>,
    selection: Range<usize>,
    offset: int,
) -> StyledChar {
    let span = render::span_at(spans, offset, spans.len() as int);
    let fg = match span {
        Some(s) => s.fg,
        None => None,
    };
    StyledChar {
        ch,
        fg,
        italic: fg is Some && (span->0).italic,
        selected: render::is_in(offset, selection),
    }
}

/// How a context line is drawn.
pub open spec fn styled_line(
    l: context::LineView,
    spans: Seq<HighlightSpan>,
    selection: Range<usize>,
    width: int,
) -> StyledView {
    StyledView {
        gutter: render::gutter_text(
            l.start < selection.end && l.end > selection.start,
            l.line as nat,
            false,
            width,
        ),
        chars: Seq::new(
            l.text.len(),
            |k: int|
                styled_char(
                    l.text[k],
                    spans,
                    selection,
                    l.start + text::byte_len(l.text.take(k)),
                ),
        ),
    }
}

/// How a context window is drawn.
pub open spec fn styled_lines(
    ls: Seq<context::LineView>,
    spans: Seq<HighlightSpan>,
    selection: Range<usize>,
) -> Seq<StyledView> {
    let width = render::gutter_width(ls, ls.len() as int) as int;
    ls.map_values(|l: context::LineView| styled_line(l, spans, selection, width))
}

/// A context line is drawn with its own text. A character is marked as
/// selected exactly when its first byte is, and has the color of a span that
/// holds that byte, of the last such span, or none. The marker stands before
/// a line exactly when it and the selection overlap.
pub proof fn law_lines_are_drawn_as_they_are(
    l: context::LineView,
    spans: Seq<HighlightSpan>,
    selection: Range<usize>,
    width: int,
    k: int,
)
    requires
        0 <= k < l.text.len(),
    ensures
        ({
            let r = styled_line(l, spans, selection, width);
            let at = l.start + text::byte_len(l.text.take(k));
            &&& r.chars.len() == l.text.len()
            &&& r.chars[k].ch == l.text[k]
            &&& r.chars[k].selected <==> selection.start <= at < selection.end
            &&& match render::span_at(spans, at, spans.len() as int) {
                None => {
                    &&& r.chars[k].fg is None && !r.chars[k].italic
                    &&& forall|i: int|
                        0 <= i < spans.len() ==> !((#[trigger] spans[i]).range.start <= at
                            < spans[i].range.end)
                },
                Some(span) => exists|i: int|
                    {
                        &&& 0 <= i < spans.len()
                        &&& span == #[trigger] spans[i]
                        &&& spans[i].range.start <= at < spans[i].range.end
                        &&& r.chars[k].fg == spans[i].fg
                        &&& r.chars[k].italic <==> spans[i].fg is Some && spans[i].italic
                        &&& forall|j: int|
                            i < j < spans.len() ==> !((#[trigger] spans[j]).range.start <= at
                                < spans[j].range.end)
                    },
            }
            &&& r.gutter == (if l.start < selection.end && selection.start < l.end {
                " > "@
            } else {
                "   "@
            }) + render::padded(l.line as nat, width) + " │ "@
        }),
{
    let at = l.start + text::byte_len(l.text.take(k));
    render::lemma_span_at(spans, at, spans.len() as int);
}

/// All context lines are drawn, in order, each with its text, behind numbers
/// of the same width.
pub proof fn law_all_lines_are_drawn(
    ls: Seq<context::LineView>,
    spans: Seq<HighlightSpan>,
    selection: Range<usize>,
    i: int,
)
    requires
        0 <= i < ls.len(),
    ensures
        ({
            let r = styled_lines(ls, spans, selection);
            let width = render::gutter_width(ls, ls.len() as int) as int;
            &&& r.len() == ls.len()
            &&& r[i].gutter == (if ls[i].start < selection.end && selection.start < ls[i].end {
                " > "@
            } else {
                "   "@
            }) + render::padded(ls[i].line as nat, width) + " │ "@
            &&& render::padded(ls[i].line as nat, width).len() == width
            &&& r[i].chars.len() == ls[i].text.len()
            &&& forall|k: int|
                0 <= k < ls[i].text.len() ==> (#[trigger] r[i].chars[k]).ch == ls[i].text[k]
        }),
{
    let width = render::gutter_width(ls, ls.len() as int) as int;
    render::law_the_gutter_fits_every_number(ls, ls.len() as int);
    render::law_numbers_are_right_aligned(ls[i].line as nat, width);
}

/// How the characters of a context line are drawn.
fn style_chars(line: &str, start: usize, spans: &[HighlightSpan], selection: &Range<usize>) -> (r:
    Vec<StyledChar>)
    ensures
        r@ == Seq::new(
            line@.len(),
            |k: int|
                styled_char(line@[k], spans@, *selection, start + text::byte_len(line@.take(k))),
        ),
{
    let cs = text::chars_of(line);
    let ghost all = Seq::new(
        cs@.len(),
        |k: int| styled_char(cs@[k], spans@, *selection, start + text::byte_len(cs@.take(k))),
    );
    let mut out: Vec<StyledChar> = Vec::new();
    let mut i: usize = 0;
    let mut offset: u128 = start as u128;
    assert(cs@.take(0) == Seq::<char>::empty());
    while i < cs.len()
        invariant
            i <= cs.len(),
            offset == start + text::byte_len(cs@.take(i as int)),
            text::byte_len(cs@) <= usize::MAX,
            all.len() == cs@.len(),
            forall|k: int|
                0 <= k < cs@.len() ==> (#[trigger] all[k]) == styled_char(
                    cs@[k],
                    spans@,
                    *selection,
                    start + text::byte_len(cs@.take(k)),
                ),
            out@ == all.take(i as int),
        decreases cs.len() - i,
    {
        let ch = cs[i];
        let selected = render::in_range(offset, selection);
        let style = match render::span_holding(spans, offset) {
            Some(span) => StyledChar {
                ch,
                fg: span.fg,
                italic: span.fg.is_some() && span.italic,
                selected,
            },
            None => StyledChar { ch, fg: None, italic: false, selected },
        };
        out.push(style);
        proof {
            assert(all.take(i + 1) == all.take(i as int).push(all[i as int]));
            assert(cs@.take(i + 1).drop_last() == cs@.take(i as int));
            text::lemma_byte_len_prefix(cs@, i + 1, i + 1);
        }
        offset = offset + text::width_of(ch) as u128;
        i += 1;
    }
    assert(all.take(all.len() as int) == all);
    out
}

/// The colored spans of `source`; none where it cannot be highlighted.
pub fn spans_of(engine: &mut HighlightEngine, language: &str, source: &str) -> (r: Vec<
    HighlightSpan,
>)
    ensures
        r@ == (match highlight::highlight_outcome(language@, source@) {
            highlight::HighlightOutcome::Spans(spans) => spans,
            _ => Seq::empty(),
        }),
        final(engine).known() == highlight::known_after(old(engine).known(), language@),
{
    match engine.highlight(language, source) {
        Ok(spans) => spans,
        Err(_) => Vec::new(),
    }
}

impl PortApp {
    /// The title of the review screen, if there is a finding to show.
    pub fn header_title(&self) -> (r: Option<String>)
        requires
            self.wf(),
        ensures
            match r {
                Some(title) => self@.cursor < self@.findings.len() && title@ == title_of(self@),
                None => self@.cursor >= self@.findings.len(),
            },
    {
        let finding = match self.current() {
            Some(finding) => finding,
            None => {
                return None;
            },
        };
        let primary = &finding.run.comments[finding.primary];
        assert(primary@ == finding@.run[finding.primary as int]);
        let len: usize = self.session.len();
        assert(self.session.cursor + 1 <= self.session.findings.len());
        let mut s = " ".to_owned();
        let number = text::decimal_string(self.session.cursor() + 1);
        s.append(number.as_str());
        s.append("/");
        let total = text::decimal_string(len);
        s.append(total.as_str());
        s.append(" — ");
        s.append(primary.path.as_str());
        s.append(":");
        let line = text::decimal_string(finding.line());
        s.append(line.as_str());
        s.append(": ");
        s.append(finding.category.as_str());
        let ghost before = s@;
        match self.session.current_decision() {
            Some(d) => {
                s.append(" [");
                s.append(d.label());
                s.append("]");
            },
            None => {},
        }
        let ghost badge = badge_of(self@.decisions[self@.cursor]);
        assert(s@ == before + badge);
        match self.mode {
            Mode::SelectionEdit => {
                s.append(" (selecting)");
            },
            _ => {},
        }
        assert(s@ == before + badge + (if self.mode == Mode::SelectionEdit {
            " (selecting)"@
        } else {
            Seq::empty()
        }));
        Some(s)
    }

    /// The number of undecided findings, as shown after the title.
    pub fn header_count(&self) -> (r: String)
        ensures
            r@ == "  ("@ + text::decimal(
                session::undecided_in(self@.decisions, self@.decisions.len() as int),
            ) + " undecided)"@,
    {
        let mut s = "  (".to_owned();
        let count = text::decimal_string(self.session.undecided_count());
        s.append(count.as_str());
        s.append(" undecided)");
        s
    }

    /// The footer of the review screen: the message, if any, and the keys.
    pub fn footer_text(&self) -> (r: String)
        ensures
            r@ == footer_of(self@),
    {
        let hint = match self.mode {
            Mode::Review =>
            "p port · s skip · d delete · o view · e select · j/k nav · c confirm · ? help · q quit",
            Mode::SelectionEdit => "← shrink · → grow · r reset · j/k nav · esc done",
            Mode::Confirm => "y execute · b back · q quit",
        };
        match &self.message {
            Some(message) => {
                let mut s = message.clone();
                s.append("  —  ");
                s.append(hint);
                s
            },
            None => hint.to_owned(),
        }
    }

    /// The rows of the confirm screen, one per finding.
    pub fn confirm_rows(&self) -> (r: Vec<ConfirmRow>)
        requires
            self.wf(),
        ensures
            order::views(r@) == Seq::new(self@.findings.len(), |i: int| row_of(self@, i)),
    {
        let ghost all = Seq::new(self@.findings.len(), |i: int| row_of(self@, i));
        let mut out: Vec<ConfirmRow> = Vec::new();
        let mut i: usize = 0;
        while i < self.session.findings.len()
            invariant
                self.wf(),
                i <= self.session.findings.len(),
                all == Seq::new(self@.findings.len(), |i: int| row_of(self@, i)),
                order::views(out@) == all.take(i as int),
            decreases self.session.findings.len() - i,
        {
            let finding = &self.session.findings[i];
            assert(self@.findings[i as int] == finding@ && finding@.wf());
            let primary = &finding.run.comments[finding.primary];
            assert(primary@ == finding@.run[finding.primary as int]);
            let action = match &self.session.decisions[i] {
                Some(d) => d.label(),
                None => "undecided",
            };
            let title = match &self.session.decisions[i] {
                Some(Decision::Port(draft)) => draft.title.clone(),
                _ => String::new(),
            };
            let row = ConfirmRow {
                number: i + 1,
                path: primary.path.clone(),
                category: finding.category.clone(),
                action,
                title,
            };
            let ghost before = order::views(out@);
            out.push(row);
            proof {
                assert(row@ == row_of(self@, i as int));
                assert(order::views(out@) == before.push(row@));
                assert(all.take(i + 1) == all.take(i as int).push(all[i as int]));
            }
            i += 1;
        }
        assert(all.take(all.len() as int) == all);
        out
    }

    /// The footer of the confirm screen.
    pub fn confirm_footer(&self) -> (r: &'static str)
        ensures
            r@ == (if self.dry_run {
                "dry run: nothing will be created or removed · y show plan · b back"@
            } else {
                "y execute · b back · q quit"@
            }),
    {
        if self.dry_run {
            "dry run: nothing will be created or removed · y show plan · b back"
        } else {
            "y execute · b back · q quit"
        }
    }

    /// The context window of the current finding as styled lines; `spans` are
    /// the colored spans of its file. Empty where there is no finding.
    pub fn styled_context(&self, spans: &[HighlightSpan]) -> (r: Vec<StyledLine>)
        requires
            self.wf(),
        ensures
            order::views(r@) == (if self@.cursor < self@.findings.len() {
                styled_lines(
                    order::views(self.contexts@[self@.cursor].lines@),
                    spans@,
                    self.contexts@[self@.cursor].selection,
                )
            } else {
                Seq::empty()
            }),
    {
        let cursor: usize = self.session.cursor();
        if cursor >= self.contexts.len() {
            let out: Vec<StyledLine> = Vec::new();
            assert(order::views(out@) == Seq::<StyledView>::empty());
            return out;
        }
        let context = &self.contexts[cursor];
        let selection = &context.selection;
        let ghost ls = order::views(context.lines@);
        let ghost all = styled_lines(ls, spans@, *selection);
        let width: usize = render::widest_number(&context.lines);
        let mut out: Vec<StyledLine> = Vec::new();
        let mut i: usize = 0;
        while i < context.lines.len()
            invariant
                i <= context.lines.len(),
                ls == order::views(context.lines@),
                all == styled_lines(ls, spans@, *selection),
                width == render::gutter_width(ls, ls.len() as int),
                order::views(out@) == all.take(i as int),
            decreases context.lines.len() - i,
        {
            let line = &context.lines[i];
            assert(ls[i as int] == line@);
            let marked = line.byte_range.start < selection.end && line.byte_range.end
                > selection.start;
            let mut gutter = if marked {
                " > ".to_owned()
            } else {
                "   ".to_owned()
            };
            let number = render::pad_number(line.line, width);
            gutter.append(number.as_str());
            gutter.append(" │ ");
            let chars = style_chars(line.text.as_str(), line.byte_range.start, spans, selection);
            let styled = StyledLine { gutter, chars };
            let ghost before = order::views(out@);
            out.push(styled);
            proof {
                assert(styled@ == styled_line(line@, spans@, *selection, width as int));
                assert(order::views(out@) == before.push(styled@));
                assert(all.take(i + 1) == all.take(i as int).push(all[i as int]));
            }
            i += 1;
        }
        assert(all.take(all.len() as int) == all);
        out
    }
}

} // verus!
