//! Syntax highlighting via tree-sitter, using the queries shipped with the
//! grammars. The engine maps highlight captures to a small built-in theme
//! and emits spans of RGB colors; the renderer turns them into ANSI.

use crate::language;
use crate::language::Grammar;
use crate::text;
use std::ops::Range;
use tree_sitter_highlight::{HighlightConfiguration, HighlightEvent, Highlighter};
use vstd::prelude::*;
use vstd::string::*;

verus! {

/// A colored region of a file.
#[derive(Debug, PartialEq, Eq)]
pub struct HighlightSpan {
    /// Byte range within the file.
    pub range: Range<usize>,
    /// Foreground color, when the theme has one.
    pub fg: Option<(u8, u8, u8)>,
    /// Bold text.
    pub bold: bool,
    /// Italic text.
    pub italic: bool,
}

impl Clone for HighlightSpan {
    fn clone(&self) -> (r: Self)
        ensures
            r == *self,
    {
        HighlightSpan {
            range: self.range.start..self.range.end,
            fg: self.fg,
            bold: self.bold,
            italic: self.italic,
        }
    }
}

/// One theme entry: a highlight name and its color.
#[derive(Debug, Clone, Copy, PartialEq, Eq)]
pub struct ThemeStyle {
    /// Foreground RGB color.
    pub fg: (u8, u8, u8),
    /// Bold text.
    pub bold: bool,
    /// Italic text.
    pub italic: bool,
}

/// The built-in theme: highlight names with their foreground color and
/// whether they are italic. Names match the captures used by the queries; a
/// capture is matched by its dot-separated parts, so `keyword` also covers
/// `keyword.function`.
pub const THEME: [(&'static str, (u8, u8, u8), bool); 32] = [
    ("comment", (120, 129, 141), true),
    ("string", (152, 195, 121), false),
    ("string.special", (200, 160, 120), false),
    ("number", (209, 154, 102), false),
    ("function", (97, 175, 239), false),
    ("function.method", (97, 175, 239), false),
    ("function.builtin", (86, 182, 194), false),
    ("function.macro", (198, 120, 221), false),
    ("type", (229, 192, 123), false),
    ("type.builtin", (229, 192, 123), false),
    ("variable", (220, 223, 228), false),
    ("variable.builtin", (86, 182, 194), false),
    ("variable.parameter", (220, 223, 228), true),
    ("constant", (209, 154, 102), false),
    ("constant.builtin", (86, 182, 194), false),
    ("keyword", (198, 120, 221), false),
    ("keyword.return", (198, 120, 221), false),
    ("keyword.operator", (171, 178, 191), false),
    ("operator", (171, 178, 191), false),
    ("punctuation", (120, 122, 150), false),
    ("punctuation.bracket", (120, 122, 150), false),
    ("punctuation.delimiter", (120, 122, 150), false),
    ("property", (171, 178, 191), false),
    ("property.builtin", (86, 182, 194), false),
    ("label", (229, 192, 123), false),
    ("namespace", (229, 192, 123), false),
    ("module", (220, 223, 228), false),
    ("builtin", (86, 182, 194), false),
    ("attribute", (198, 120, 221), false),
    ("constructor", (229, 192, 123), false),
    ("field", (171, 178, 191), false),
    ("parameter", (220, 223, 228), false),
];

/// The foreground color of highlights that the theme does not know.
pub const PLAIN_FG: (u8, u8, u8) = (220, 223, 228);

/// Resolves the grammar for a language id.
pub fn language_ts(id: &str) -> (r: Option<Grammar>)
    ensures
        r == language::grammar_with_id(id@),
{
    match language::grammar(id) {
        Ok(g) => Some(g),
        Err(_) => None,
    }
}

/// Errors from the highlighting engine.
#[derive(Debug, PartialEq, Eq)]
pub enum HighlightError {
    /// The language has no highlight queries.
    NoQueries(String),
    /// A query failed to compile.
    Query {
        /// The language id.
        language: String,
        /// The underlying query error.
        detail: String,
    },
    /// The highlighter failed while processing the file.
    Run {
        /// The language id.
        language: String,
        /// The underlying error.
        detail: String,
    },
}

impl HighlightError {
    /// The text of [`Self::message`].
    pub open spec fn text(self) -> Seq<char> {
        match self {
            HighlightError::NoQueries(language) => "no highlight queries for language "@
                + language@,
            HighlightError::Query { language, detail } => "failed to compile "@ + language@
                + " highlight query: "@ + detail@,
            HighlightError::Run { language, detail } => "failed to highlight "@ + language@ + ": "@
                + detail@,
        }
    }

    /// A human-readable description of the error.
    pub fn message(&self) -> (r: String)
        ensures
            r@ == self.text(),
    {
        match self {
            HighlightError::NoQueries(language) => {
                let mut s = "no highlight queries for language ".to_owned();
                s.append(language.as_str());
                s
            },
            HighlightError::Query { language, detail } => {
                let mut s = "failed to compile ".to_owned();
                s.append(language.as_str());
                s.append(" highlight query: ");
                s.append(detail.as_str());
                s
            },
            HighlightError::Run { language, detail } => {
                let mut s = "failed to highlight ".to_owned();
                s.append(language.as_str());
                s.append(": ");
                s.append(detail.as_str());
                s
            },
        }
    }
}

// ---------------------------------------------------------------------------
// Queries
// ---------------------------------------------------------------------------

/// The highlight queries of one language.
pub struct QuerySet {
    highlights: &'static str,
    injections: &'static str,
    locals: &'static str,
}

/// The texts of a [`QuerySet`].
#[verifier::ext_equal]
pub struct QueryTexts {
    pub highlights: Seq<char>,
    pub injections: Seq<char>,
    pub locals: Seq<char>,
}

impl View for QuerySet {
    type V = QueryTexts;

    closed spec fn view(&self) -> QueryTexts {
        QueryTexts {
            highlights: self.highlights@,
            injections: self.injections@,
            locals: self.locals@,
        }
    }
}

/// The text of the highlights query constant in the crate of a grammar.
pub uninterp spec fn crate_highlights(grammar: Grammar) -> Seq<char>;

/// The highlights query of its crate: `tree_sitter_rust::HIGHLIGHTS_QUERY`.
#[verifier::external_body]
fn rust_highlights() -> (r: &'static str)
    ensures
        r@ == crate_highlights(Grammar::Rust),
{
    tree_sitter_rust::HIGHLIGHTS_QUERY
}

/// The highlights query of its crate: `tree_sitter_python::HIGHLIGHTS_QUERY`.
#[verifier::external_body]
fn python_highlights() -> (r: &'static str)
    ensures
        r@ == crate_highlights(Grammar::Python),
{
    tree_sitter_python::HIGHLIGHTS_QUERY
}

/// The highlights query of its crate: `tree_sitter_c::HIGHLIGHT_QUERY`.
#[verifier::external_body]
fn c_highlights() -> (r: &'static str)
    ensures
        r@ == crate_highlights(Grammar::C),
{
    tree_sitter_c::HIGHLIGHT_QUERY
}

/// The highlights query of its crate: `tree_sitter_cpp::HIGHLIGHT_QUERY`.
#[verifier::external_body]
fn cpp_highlights() -> (r: &'static str)
    ensures
        r@ == crate_highlights(Grammar::Cpp),
{
    tree_sitter_cpp::HIGHLIGHT_QUERY
}

/// The highlights query of its crate: `tree_sitter_go::HIGHLIGHTS_QUERY`.
#[verifier::external_body]
fn go_highlights() -> (r: &'static str)
    ensures
        r@ == crate_highlights(Grammar::Go),
{
    tree_sitter_go::HIGHLIGHTS_QUERY
}

/// The highlights query of its crate: `tree_sitter_typescript::HIGHLIGHTS_QUERY`.
#[verifier::external_body]
fn typescript_highlights() -> (r: &'static str)
    ensures
        r@ == crate_highlights(Grammar::TypeScript),
{
    tree_sitter_typescript::HIGHLIGHTS_QUERY
}

/// The highlights query of its crate: `tree_sitter_bash::HIGHLIGHT_QUERY`.
#[verifier::external_body]
fn bash_highlights() -> (r: &'static str)
    ensures
        r@ == crate_highlights(Grammar::Bash),
{
    tree_sitter_bash::HIGHLIGHT_QUERY
}

/// The highlights query of its crate: `tree_sitter_json::HIGHLIGHTS_QUERY`.
#[verifier::external_body]
fn json_highlights() -> (r: &'static str)
    ensures
        r@ == crate_highlights(Grammar::Json),
{
    tree_sitter_json::HIGHLIGHTS_QUERY
}

/// The injections query of Rust: what macros hold is Rust again.
pub const RUST_INJECTIONS: &'static str =
    "((macro_invocation\n  (token_tree) @injection.content)\n (#set! injection.language \"rust\")\n (#set! injection.include-children))\n\n((macro_rule\n  (token_tree) @injection.content)\n (#set! injection.language \"rust\")\n (#set! injection.include-children))\n";

/// The injections query of C++: a raw string may name its language in its
/// delimiter.
pub const CPP_INJECTIONS: &'static str =
    "(raw_string_literal\n  delimiter: (raw_string_delimiter) @injection.language\n  (raw_string_content) @injection.content)\n";

/// The highlight queries of a grammar: the highlights of its crate, where TSX
/// shares those of TypeScript, injections for Rust and C++ alone, and no
/// locals.
pub open spec fn grammar_queries(grammar: Grammar) -> QueryTexts {
    QueryTexts {
        highlights: match grammar {
            Grammar::Tsx => crate_highlights(Grammar::TypeScript),
            _ => crate_highlights(grammar),
        },
        injections: match grammar {
            Grammar::Rust => RUST_INJECTIONS@,
            Grammar::Cpp => CPP_INJECTIONS@,
            _ => ""@,
        },
        locals: ""@,
    }
}

/// The highlight queries of a grammar.
fn bundled_queries(grammar: Grammar) -> (r: QuerySet)
    ensures
        r@ == grammar_queries(grammar),
{
    let highlights = match grammar {
        Grammar::Rust => rust_highlights(),
        Grammar::Python => python_highlights(),
        Grammar::C => c_highlights(),
        Grammar::Cpp => cpp_highlights(),
        Grammar::Go => go_highlights(),
        Grammar::TypeScript => typescript_highlights(),
        Grammar::Tsx => typescript_highlights(),
        Grammar::Bash => bash_highlights(),
        Grammar::Json => json_highlights(),
    };
    let injections = match grammar {
        Grammar::Rust => RUST_INJECTIONS,
        Grammar::Cpp => CPP_INJECTIONS,
        _ => "",
    };
    QuerySet { highlights, injections, locals: "" }
}

/// The highlight queries of a language, when it is a registered one.
pub fn query_set(language: &str) -> (r: Option<QuerySet>)
    ensures
        match r {
            Some(set) => language::grammar_with_id(language@) matches Some(g) && set@
                == grammar_queries(g),
            None => language::grammar_with_id(language@) is None,
        },
{
    match language_ts(language) {
        Some(g) => Some(bundled_queries(g)),
        None => None,
    }
}

/// A compiled highlight configuration of the `tree-sitter-highlight` crate.
#[verifier::external_type_specification]
#[verifier::external_body]
pub struct ExHighlightConfiguration(HighlightConfiguration);

/// What a highlight configuration was made from.
#[verifier::ext_equal]
pub struct Recipe {
    pub grammar: Grammar,
    pub language: Seq<char>,
    pub queries: QueryTexts,
    pub names: Seq<Seq<char>>,
}

/// What a highlight configuration was made from.
pub uninterp spec fn recipe_of(config: HighlightConfiguration) -> Recipe;

/// Why a highlight configuration cannot be made, or `None` when it can.
pub uninterp spec fn recipe_error(recipe: Recipe) -> Option<Seq<char>>;

/// Makes a highlight configuration; calls
/// `tree_sitter_highlight::HighlightConfiguration::new` and `configure`. The
/// outcome depends on the grammar, the language name, the queries and the
/// highlight names alone.
#[verifier::external_body]
fn compile_queries(
    grammar: Grammar,
    language: &str,
    queries: &QuerySet,
    names: &Vec<&'static str>,
) -> (r: Result<HighlightConfiguration, String>)
    ensures
        ({
            let recipe = Recipe {
                grammar,
                language: language@,
                queries: queries@,
                names: language::words(names@),
            };
            match r {
                Ok(config) => recipe_error(recipe) is None && recipe_of(config) == recipe,
                Err(message) => recipe_error(recipe) == Some(message@),
            }
        }),
{
    let ts = match grammar {
        Grammar::Rust => tree_sitter_rust::LANGUAGE,
        Grammar::Python => tree_sitter_python::LANGUAGE,
        Grammar::C => tree_sitter_c::LANGUAGE,
        Grammar::Cpp => tree_sitter_cpp::LANGUAGE,
        Grammar::Go => tree_sitter_go::LANGUAGE,
        Grammar::TypeScript => tree_sitter_typescript::LANGUAGE_TYPESCRIPT,
        Grammar::Tsx => tree_sitter_typescript::LANGUAGE_TSX,
        Grammar::Bash => tree_sitter_bash::LANGUAGE,
        Grammar::Json => tree_sitter_json::LANGUAGE,
    };
    let (h, i, l) = (queries.highlights, queries.injections, queries.locals);
    let made = HighlightConfiguration::new(ts.into(), language, h, i, l);
    made.map(|mut c| { c.configure(names); c }).map_err(|e| e.to_string())
}

// ---------------------------------------------------------------------------
// Events
// ---------------------------------------------------------------------------

/// One event of a highlighting pass.
#[derive(Debug, Clone, Copy, PartialEq, Eq)]
pub enum Mark {
    /// The bytes `start..end` come next.
    Source {
        /// First byte.
        start: usize,
        /// Byte after the last.
        end: usize,
    },
    /// What comes next has the highlight with this index.
    Start(usize),
    /// The innermost highlight ends.
    End,
}

/// The events of highlighting a source, or the message of the error.
pub uninterp spec fn marks_of(recipe: Recipe, source: Seq<char>) -> Result<Seq<Mark>, Seq<char>>;

/// The content of a highlighting pass's outcome.
pub open spec fn marks_view(r: Result<Vec<Mark>, String>) -> Result<Seq<Mark>, Seq<char>> {
    match r {
        Ok(marks) => Ok(marks@),
        Err(message) => Err(message@),
    }
}

/// The end of the last source event among the first `k`, or zero.
pub open spec fn covered(marks: Seq<Mark>, k: int) -> int
    decreases k,
{
    if k <= 0 {
        0
    } else {
        match marks[k - 1] {
            Mark::Source { start: _, end } => end as int,
            _ => covered(marks, k - 1),
        }
    }
}

/// Whether the source events follow one another from the start of a text of
/// `len` bytes without going past its end.
pub open spec fn in_order(marks: Seq<Mark>, len: int) -> bool {
    forall|k: int|
        0 <= k < marks.len() ==> ((#[trigger] marks[k]) matches Mark::Source { start, end } ==> start
            == covered(marks, k) && start <= end <= len)
}

/// The largest source, in bytes, that is handed to the highlighter: it counts
/// bytes in 32 bits, where the largest number stands for an open end.
pub const MAX_HIGHLIGHT_BYTES: usize = 0xFFFF_FFFE;

/// Highlights a source; calls `tree_sitter_highlight::Highlighter::highlight`
/// with a fresh highlighter and no injected languages, and reads its events
/// to the end. The outcome depends on the configuration and the source alone.
/// The source events cover the source from its start, each from where the one
/// before it ended. The parser counts bytes in 32 bits.
#[verifier::external_body]
fn run_highlighter(config: &HighlightConfiguration, source: &str) -> (r: Result<Vec<Mark>, String>)
    requires
        text::byte_len(source@) <= MAX_HIGHLIGHT_BYTES,
    ensures
        marks_view(r) == marks_of(recipe_of(*config), source@),
        r matches Ok(marks) ==> in_order(marks@, text::byte_len(source@) as int),
{
    let mut highlighter = Highlighter::new();
    let events = highlighter.highlight(config, source.as_bytes(), None, |_| None);
    let events = events.map_err(|e| e.to_string())?;
    events
        .map(|event| match event {
            Ok(HighlightEvent::Source { start, end }) => Ok(Mark::Source { start, end }),
            Ok(HighlightEvent::HighlightStart(h)) => Ok(Mark::Start(h.0)),
            Ok(HighlightEvent::HighlightEnd) => Ok(Mark::End),
            Err(e) => Err(e.to_string()),
        })
        .collect()
}

/// The style of the highlight with index `h`.
pub open spec fn theme_style(h: int) -> ThemeStyle {
    if 0 <= h < THEME@.len() {
        ThemeStyle { fg: THEME@[h].1, bold: false, italic: THEME@[h].2 }
    } else {
        ThemeStyle { fg: PLAIN_FG, bold: false, italic: false }
    }
}

/// The state of turning events into spans: the finished spans, the span that
/// is open, and the end of the source seen so far.
pub struct SpanState {
    pub spans: Seq<HighlightSpan>,
    pub open: Option<HighlightSpan>,
    pub at: usize,
}

/// The finished spans with an open one closed.
pub open spec fn closed_spans(st: SpanState) -> Seq<HighlightSpan> {
    match st.open {
        Some(span) => st.spans.push(span),
        None => st.spans,
    }
}

/// The state after one more event.
pub open spec fn span_step(st: SpanState, m: Mark) -> SpanState {
    match m {
        Mark::Source { start: _, end } => SpanState {
            spans: st.spans,
            open: match st.open {
                Some(span) => Some(HighlightSpan { range: Range { start: st.at, end }, ..span }),
                None => None,
            },
            at: end,
        },
        Mark::Start(h) => SpanState {
            spans: closed_spans(st),
            open: Some(
                HighlightSpan {
                    range: Range { start: st.at, end: st.at },
                    fg: Some(theme_style(h as int).fg),
                    bold: theme_style(h as int).bold,
                    italic: theme_style(h as int).italic,
                },
            ),
            at: st.at,
        },
        Mark::End => SpanState { spans: closed_spans(st), open: None, at: st.at },
    }
}

/// The state after the first `k` events.
pub open spec fn span_state(marks: Seq<Mark>, k: int) -> SpanState
    decreases k,
{
    if k <= 0 {
        SpanState { spans: Seq::empty(), open: None, at: 0 }
    } else {
        span_step(span_state(marks, k - 1), marks[k - 1])
    }
}

/// The colored spans of a highlighting pass.
pub open spec fn spans_of(marks: Seq<Mark>) -> Seq<HighlightSpan> {
    closed_spans(span_state(marks, marks.len() as int))
}

/// Whether every span is a range of a text of `len` bytes.
pub open spec fn within(spans: Seq<HighlightSpan>, len: int) -> bool {
    forall|i: int|
        0 <= i < spans.len() ==> (#[trigger] spans[i]).range.start <= spans[i].range.end <= len
}

/// Events in order give spans within the text.
pub proof fn law_spans_stay_within(marks: Seq<Mark>, len: int)
    requires
        in_order(marks, len),
        0 <= len,
    ensures
        within(spans_of(marks), len),
{
    lemma_span_state(marks, marks.len() as int, len);
}

proof fn lemma_span_state(marks: Seq<Mark>, k: int, len: int)
    requires
        in_order(marks, len),
        0 <= k <= marks.len(),
        0 <= len,
    ensures
        ({
            let st = span_state(marks, k);
            &&& st.at == covered(marks, k)
            &&& st.at <= len
            &&& within(st.spans, len)
            &&& st.open matches Some(span) ==> span.range.start <= span.range.end <= st.at
        }),
    decreases k,
{
    if k > 0 {
        lemma_span_state(marks, k - 1, len);
        let m = marks[k - 1];
        let before = span_state(marks, k - 1);
        assert forall|i: int| 0 <= i < closed_spans(before).len() implies (
        #[trigger] closed_spans(before)[i]).range.start <= closed_spans(before)[i].range.end
            <= len by {
            if i < before.spans.len() {
                assert(before.spans[i].range.start <= before.spans[i].range.end <= len);
            }
        }
    }
}

/// A piece of the source between the start of a highlight and the next mark
/// becomes a span with the color and slant that the theme has for it, over
/// just its bytes.
pub proof fn law_marked_source_is_colored(
    marks: Seq<Mark>,
    len: int,
    k: int,
    h: usize,
    start: usize,
    end: usize,
)
    requires
        in_order(marks, len),
        0 <= len,
        0 < k < marks.len(),
        marks[k - 1] == Mark::Start(h),
        marks[k] == (Mark::Source { start, end }),
        k + 1 < marks.len() ==> !(marks[k + 1] is Source),
    ensures
        exists|i: int|
            {
                let span = #[trigger] spans_of(marks)[i];
                &&& 0 <= i < spans_of(marks).len()
                &&& span.range.start == start
                &&& span.range.end == end
                &&& h < THEME@.len() ==> span.fg == Some(THEME@[h as int].1) && span.italic
                    == THEME@[h as int].2
                &&& h >= THEME@.len() ==> span.fg == Some(PLAIN_FG) && !span.italic
                &&& !span.bold
            },
{
    let n = marks.len() as int;
    let st = span_state(marks, k + 1);
    lemma_span_state(marks, k, len);
    assert(span_state(marks, k) == span_step(span_state(marks, k - 1), marks[k - 1]));
    assert(st == span_step(span_state(marks, k), marks[k]));
    let span = st.open->0;
    assert(span.range.start == start && span.range.end == end);
    let i = st.spans.len() as int;
    if k + 1 < n {
        let next = span_state(marks, k + 2);
        assert(next == span_step(st, marks[k + 1]));
        assert(next.spans[i] == span);
        lemma_spans_grow(marks, k + 2, n);
        assert(spans_of(marks)[i] == span);
    } else {
        assert(spans_of(marks)[i] == span);
    }
}

/// Finished spans stay.
proof fn lemma_spans_grow(marks: Seq<Mark>, j: int, n: int)
    requires
        0 <= j <= n,
    ensures
        span_state(marks, j).spans.len() <= span_state(marks, n).spans.len(),
        forall|i: int|
            0 <= i < span_state(marks, j).spans.len() ==> #[trigger] span_state(marks, n).spans[i]
                == span_state(marks, j).spans[i],
    decreases n - j,
{
    if j < n {
        lemma_spans_grow(marks, j, n - 1);
    }
}

/// A span has the color and slant that the theme has for some highlight, and
/// starts and ends between that highlight's start and the next mark that is
/// not source: what stands outside of highlights has no span.
pub proof fn law_spans_come_from_highlights(marks: Seq<Mark>, len: int, i: int) -> (at: (int, int))
    requires
        in_order(marks, len),
        0 <= len,
        0 <= i < spans_of(marks).len(),
    ensures
        0 <= at.0 < at.1 <= marks.len(),
        marks[at.0] is Start,
        forall|k: int| at.0 < k < at.1 ==> (#[trigger] marks[k]) is Source,
        covered(marks, at.0) <= spans_of(marks)[i].range.start,
        spans_of(marks)[i].range.end <= covered(marks, at.1),
        ({
            let h = marks[at.0]->Start_0;
            &&& h < THEME@.len() ==> spans_of(marks)[i].fg == Some(THEME@[h as int].1) && spans_of(
                marks,
            )[i].italic == THEME@[h as int].2
            &&& h >= THEME@.len() ==> spans_of(marks)[i].fg == Some(PLAIN_FG) && !spans_of(
                marks,
            )[i].italic
        }),
{
    lemma_span_origin(marks, len, marks.len() as int, i)
}

/// Where a finished or open span comes from.
proof fn lemma_span_origin(marks: Seq<Mark>, len: int, n: int, i: int) -> (at: (int, int))
    requires
        in_order(marks, len),
        0 <= len,
        0 <= n <= marks.len(),
        0 <= i < closed_spans(span_state(marks, n)).len(),
    ensures
        0 <= at.0 < at.1 <= n,
        marks[at.0] is Start,
        forall|k: int| at.0 < k < at.1 ==> (#[trigger] marks[k]) is Source,
        i == span_state(marks, n).spans.len() ==> at.1 == n,
        ({
            let span = closed_spans(span_state(marks, n))[i];
            let h = marks[at.0]->Start_0;
            &&& covered(marks, at.0) <= span.range.start
            &&& span.range.end <= covered(marks, at.1)
            &&& span.fg == Some(theme_style(h as int).fg)
            &&& span.italic == theme_style(h as int).italic
        }),
    decreases n,
{
    let st = span_state(marks, n - 1);
    let m = marks[n - 1];
    lemma_span_state(marks, n - 1, len);
    assert(span_state(marks, n) == span_step(st, m));
    if i < closed_spans(st).len() && !(m is Source) && i < span_state(marks, n).spans.len() {
        lemma_span_origin(marks, len, n - 1, i)
    } else if m is Source {
        let at = lemma_span_origin(marks, len, n - 1, i);
        if i == st.spans.len() {
            lemma_covered_mono(marks, len, at.0, n - 1);
            (at.0, n)
        } else {
            at
        }
    } else {
        (n - 1, n)
    }
}

/// What was covered stays covered.
proof fn lemma_covered_mono(marks: Seq<Mark>, len: int, j: int, n: int)
    requires
        in_order(marks, len),
        0 <= j <= n <= marks.len(),
    ensures
        covered(marks, j) <= covered(marks, n),
    decreases n - j,
{
    if j < n {
        lemma_covered_mono(marks, len, j, n - 1);
        assert(marks[n - 1] matches Mark::Source { start, end } ==> start == covered(
            marks,
            n - 1,
        ));
    }
}

/// Each language is highlighted with the queries of its own grammar, TSX with
/// those of TypeScript.
pub proof fn law_languages_have_their_own_queries(g: Grammar)
    ensures
        !(g is Tsx) ==> grammar_queries(g).highlights == crate_highlights(g),
        g is Tsx ==> grammar_queries(g).highlights == crate_highlights(Grammar::TypeScript),
        g is Rust ==> grammar_queries(g).injections == RUST_INJECTIONS@,
        g is Cpp ==> grammar_queries(g).injections == CPP_INJECTIONS@,
        !(g is Rust) && !(g is Cpp) ==> grammar_queries(g).injections == ""@,
        grammar_queries(g).locals == ""@,
{
}

/// The style of the highlight with index `h`.
fn style_at(h: usize) -> (r: ThemeStyle)
    ensures
        r == theme_style(h as int),
{
    if h < THEME.len() {
        ThemeStyle { fg: THEME[h].1, bold: false, italic: THEME[h].2 }
    } else {
        ThemeStyle { fg: PLAIN_FG, bold: false, italic: false }
    }
}

/// Appends a span to `spans`, when there is one.
fn close_span(spans: &mut Vec<HighlightSpan>, open: Option<HighlightSpan>)
    ensures
        final(spans)@ == (match open {
            Some(span) => old(spans)@.push(span),
            None => old(spans)@,
        }),
{
    if let Some(span) = open {
        spans.push(span);
    }
}

/// Turns the events of a highlighting pass into colored spans.
pub fn spans_from_marks(marks: &Vec<Mark>) -> (r: Vec<HighlightSpan>)
    ensures
        r@ == spans_of(marks@),
{
    let mut spans: Vec<HighlightSpan> = Vec::new();
    let mut current: Option<HighlightSpan> = None;
    let mut range_start: usize = 0;
    let mut i: usize = 0;
    while i < marks.len()
        invariant
            i <= marks.len(),
            spans@ == span_state(marks@, i as int).spans,
            current == span_state(marks@, i as int).open,
            range_start == span_state(marks@, i as int).at,
        decreases marks.len() - i,
    {
        match marks[i] {
            Mark::Source { start: _, end } => {
                current = match current {
                    Some(span) => Some(
                        HighlightSpan {
                            range: range_start..end,
                            fg: span.fg,
                            bold: span.bold,
                            italic: span.italic,
                        },
                    ),
                    None => None,
                };
                range_start = end;
            },
            Mark::Start(highlight) => {
                close_span(&mut spans, current);
                let style = style_at(highlight);
                current = Some(
                    HighlightSpan {
                        range: range_start..range_start,
                        fg: Some(style.fg),
                        bold: style.bold,
                        italic: style.italic,
                    },
                );
            },
            Mark::End => {
                close_span(&mut spans, current);
                current = None;
            },
        }
        i += 1;
    }
    close_span(&mut spans, current);
    spans
}

// ---------------------------------------------------------------------------
// The engine
// ---------------------------------------------------------------------------

/// The names of the theme.
pub open spec fn theme_names() -> Seq<Seq<char>> {
    Seq::new(THEME@.len(), |i: int| THEME@[i].0@)
}

/// The names of the theme.
fn names() -> (r: Vec<&'static str>)
    ensures
        language::words(r@) == theme_names(),
{
    let mut out: Vec<&'static str> = Vec::new();
    let mut i: usize = 0;
    while i < THEME.len()
        invariant
            i <= THEME@.len(),
            language::words(out@) == theme_names().take(i as int),
        decreases THEME@.len() - i,
    {
        let ghost before = language::words(out@);
        out.push(THEME[i].0);
        assert(language::words(out@) == before.push(THEME@[i as int].0@));
        i += 1;
    }
    assert(theme_names().take(THEME@.len() as int) == theme_names());
    out
}

/// The recipe of a grammar's highlight configuration.
pub open spec fn engine_recipe(g: Grammar) -> Recipe {
    Recipe {
        grammar: g,
        language: language::id_of(g),
        queries: grammar_queries(g),
        names: theme_names(),
    }
}

/// What highlighting a source gives.
pub enum HighlightOutcome {
    /// The language has no queries.
    NoQueries,
    /// The queries do not compile.
    BadQuery(Seq<char>),
    /// The highlighter failed.
    Failed(Seq<char>),
    /// The colored spans.
    Spans(Seq<HighlightSpan>),
}

/// What highlighting `source` in `language` gives.
pub open spec fn highlight_outcome(language: Seq<char>, source: Seq<char>) -> HighlightOutcome {
    match language::grammar_with_id(language) {
        None => HighlightOutcome::NoQueries,
        Some(g) => match recipe_error(engine_recipe(g)) {
            Some(message) => HighlightOutcome::BadQuery(message),
            None => if text::byte_len(source) > MAX_HIGHLIGHT_BYTES {
                HighlightOutcome::Failed("the source is too large"@)
            } else {
                match marks_of(engine_recipe(g), source) {
                    Ok(marks) => HighlightOutcome::Spans(spans_of(marks)),
                    Err(message) => HighlightOutcome::Failed(message),
                }
            },
        },
    }
}

/// Only a known language whose queries compile is highlighted, and only a
/// source that is not too large; what comes of it are the spans of the marks,
/// and a failure says why.
pub proof fn law_known_languages_are_highlighted(language: Seq<char>, source: Seq<char>)
    ensures
        ({
            let o = highlight_outcome(language, source);
            match language::grammar_with_id(language) {
                None => o is NoQueries,
                Some(g) => match recipe_error(engine_recipe(g)) {
                    Some(m) => o == HighlightOutcome::BadQuery(m),
                    None => {
                        &&& text::byte_len(source) > MAX_HIGHLIGHT_BYTES ==> o
                            == HighlightOutcome::Failed("the source is too large"@)
                        &&& text::byte_len(source) <= MAX_HIGHLIGHT_BYTES ==> (match marks_of(
                            engine_recipe(g),
                            source,
                        ) {
                            Ok(marks) => o == HighlightOutcome::Spans(spans_of(marks)),
                            Err(m) => o == HighlightOutcome::Failed(m),
                        })
                    },
                },
            }
        }),
{
}

/// The grammars with a cached configuration after a source in `language` was
/// highlighted: a configuration that can be made is made once.
pub open spec fn known_after(known: Seq<Grammar>, language: Seq<char>) -> Seq<Grammar> {
    match language::grammar_with_id(language) {
        None => known,
        Some(g) => if known.contains(g) || recipe_error(engine_recipe(g)) is Some {
            known
        } else {
            known.push(g)
        },
    }
}

/// Highlights source files with cached per-language configurations.
pub struct HighlightEngine {
    grammars: Vec<Grammar>,
    configs: Vec<HighlightConfiguration>,
}

impl Default for HighlightEngine {
    fn default() -> (r: Self)
        ensures
            r.known() == Seq::<Grammar>::empty(),
    {
        HighlightEngine { grammars: Vec::new(), configs: Vec::new() }
    }
}

impl HighlightEngine {
    /// Every cached configuration is that of its grammar.
    #[verifier::type_invariant]
    spec fn wf(self) -> bool {
        &&& self.grammars@.len() == self.configs@.len()
        &&& forall|i: int|
            0 <= i < self.configs@.len() ==> recipe_of(#[trigger] self.configs@[i])
                == engine_recipe(self.grammars@[i]) && recipe_error(
                engine_recipe(self.grammars@[i]),
            ) is None
    }

    /// The grammars whose configurations are cached, in the order in which
    /// they were first used.
    pub closed spec fn known(self) -> Seq<Grammar> {
        self.grammars@
    }

    /// Creates an empty engine.
    pub fn new() -> (r: Self)
        ensures
            r.known() == Seq::<Grammar>::empty(),
    {
        Self::default()
    }

    /// Highlights `source` in `language`, returning all colored spans.
    ///
    /// # Errors
    ///
    /// Returns an error when the language has no queries or a query fails to
    /// compile or run.
    pub fn highlight(&mut self, language: &str, source: &str) -> (r: Result<
        Vec<HighlightSpan>,
        HighlightError,
    >)
        ensures
            ({
                let outcome = highlight_outcome(language@, source@);
                match r {
                    Ok(spans) => outcome == HighlightOutcome::Spans(spans@) && within(
                        spans@,
                        text::byte_len(source@) as int,
                    ),
                    Err(HighlightError::NoQueries(l)) => outcome is NoQueries && l@ == language@,
                    Err(HighlightError::Query { language: l, detail }) => outcome
                        == HighlightOutcome::BadQuery(detail@) && l@ == language@,
                    Err(HighlightError::Run { language: l, detail }) => outcome
                        == HighlightOutcome::Failed(detail@) && l@ == language@,
                }
            }),
            final(self).known() == known_after(old(self).known(), language@),
    {
        proof {
            use_type_invariant(&*self);
        }
        let grammar = match language_ts(language) {
            Some(g) => g,
            None => {
                return Err(HighlightError::NoQueries(language.to_owned()));
            },
        };
        proof {
            lemma_id(language@, grammar);
        }
        let index = match self.cached(grammar) {
            Some(i) => i,
            None => {
                let queries = bundled_queries(grammar);
                match compile_queries(grammar, language, &queries, &names()) {
                    Ok(config) => {
                        let i: usize = self.configs.len();
                        self.remember(grammar, config);
                        i
                    },
                    Err(detail) => {
                        return Err(
                            HighlightError::Query { language: language.to_owned(), detail },
                        );
                    },
                }
            },
        };
        proof {
            use_type_invariant(&*self);
            assert(recipe_of(self.configs@[index as int]) == engine_recipe(grammar));
        }
        if text::str_bytes(source) > MAX_HIGHLIGHT_BYTES {
            return Err(
                HighlightError::Run {
                    language: language.to_owned(),
                    detail: "the source is too large".to_owned(),
                },
            );
        }
        match run_highlighter(&self.configs[index], source) {
            Ok(marks) => {
                proof {
                    law_spans_stay_within(marks@, text::byte_len(source@) as int);
                }
                Ok(spans_from_marks(&marks))
            },
            Err(detail) => Err(HighlightError::Run { language: language.to_owned(), detail }),
        }
    }

    /// The place of a grammar's cached configuration.
    fn cached(&self, grammar: Grammar) -> (r: Option<usize>)
        ensures
            match r {
                Some(i) => i < self.configs@.len() && self.grammars@[i as int] == grammar,
                None => !self.grammars@.contains(grammar),
            },
    {
        proof {
            use_type_invariant(self);
        }
        let mut i: usize = 0;
        while i < self.grammars.len()
            invariant
                i <= self.grammars.len(),
                self.grammars@.len() == self.configs@.len(),
                forall|k: int| 0 <= k < i ==> (#[trigger] self.grammars@[k]) != grammar,
            decreases self.grammars.len() - i,
        {
            if self.grammars[i] == grammar {
                return Some(i);
            }
            i += 1;
        }
        None
    }

    /// Caches a grammar's configuration.
    fn remember(&mut self, grammar: Grammar, config: HighlightConfiguration)
        requires
            recipe_of(config) == engine_recipe(grammar),
            recipe_error(engine_recipe(grammar)) is None,
        ensures
            final(self).grammars@ == old(self).grammars@.push(grammar),
            final(self).configs@ == old(self).configs@.push(config),
    {
        proof {
            use_type_invariant(&*self);
        }
        let mut cached = HighlightEngine { grammars: Vec::new(), configs: Vec::new() };
        std::mem::swap(&mut cached, self);
        let HighlightEngine { grammars: mut gs, configs: mut cs } = cached;
        gs.push(grammar);
        cs.push(config);
        *self = HighlightEngine { grammars: gs, configs: cs };
    }
}

proof fn lemma_id(id: Seq<char>, g: Grammar)
    requires
        language::grammar_with_id(id) == Some(g),
    ensures
        language::id_of(g) == id,
{
    lemma_first_with_id(language::ALL@, id, 0);
}

proof fn lemma_first_with_id(gs: Seq<Grammar>, id: Seq<char>, k: int)
    ensures
        language::first_with_id(gs, id, k) matches Some(g) ==> language::id_of(g) == id,
    decreases gs.len() - k,
{
    if 0 <= k < gs.len() {
        lemma_first_with_id(gs, id, k + 1);
    }
}

} // verus!
