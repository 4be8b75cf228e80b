//! Issue draft template: rendering and parsing.
//!
//! When the user ports a finding, an editor opens with a prefilled Markdown
//! file that carries TOML frontmatter (category, path, commit) plus
//! `# Title:` and `## Description` sections. The file doubles as the issue
//! body once created, and [`parse_draft`] decodes it back into an
//! [`IssueDraft`].

use crate::matcher;
use crate::text;
use vstd::prelude::*;
use vstd::string::*;

verus! {

/// The template version understood by this crate.
pub const DRAFT_VERSION: u32 = 1;

/// The tool name expected in the frontmatter.
pub const TOOL_NAME: &'static str = "todone";

/// Placeholder text for the title the user must replace.
pub const TITLE_PLACEHOLDER: &'static str = "<write title here>";

/// Placeholder text for the description the user must replace.
pub const DESCRIPTION_PLACEHOLDER: &'static str = "<write the issue description here>";

/// The mathematical content of a [`ContextSnippet`].
#[verifier::ext_equal]
pub struct SnippetView {
    pub language: Seq<char>,
    pub text: Seq<char>,
}

/// The code snippet embedded in the draft, as shown in the review screen.
#[derive(Debug, PartialEq, Eq)]
pub struct ContextSnippet {
    /// Language id used for the code fence, e.g. `rust`.
    pub language: String,
    /// The snippet lines, without the surrounding fence.
    pub text: String,
}

impl View for ContextSnippet {
    type V = SnippetView;

    open spec fn view(&self) -> SnippetView {
        SnippetView { language: self.language@, text: self.text@ }
    }
}

impl Clone for ContextSnippet {
    fn clone(&self) -> (r: Self)
        ensures
            r == *self,
    {
        ContextSnippet { language: self.language.clone(), text: self.text.clone() }
    }
}

/// The mathematical content of an [`IssueDraft`].
#[verifier::ext_equal]
pub struct DraftView {
    pub category: Seq<char>,
    pub path: Seq<char>,
    pub commit: Seq<char>,
    pub title: Seq<char>,
    pub description: Seq<char>,
}

/// A portable issue: enough information to create an issue on any forge.
#[derive(Debug, PartialEq, Eq)]
pub struct IssueDraft {
    /// The matched category, e.g. `TODO`.
    pub category: String,
    /// Repository-relative path of the finding.
    pub path: String,
    /// Commit hash the scan ran against.
    pub commit: String,
    /// Issue title (one line).
    pub title: String,
    /// Issue body.
    pub description: String,
}

impl View for IssueDraft {
    type V = DraftView;

    open spec fn view(&self) -> DraftView {
        DraftView {
            category: self.category@,
            path: self.path@,
            commit: self.commit@,
            title: self.title@,
            description: self.description@,
        }
    }
}

impl Clone for IssueDraft {
    fn clone(&self) -> (r: Self)
        ensures
            r == *self,
    {
        IssueDraft {
            category: self.category.clone(),
            path: self.path.clone(),
            commit: self.commit.clone(),
            title: self.title.clone(),
            description: self.description.clone(),
        }
    }
}

// ---------------------------------------------------------------------------
// Frontmatter
// ---------------------------------------------------------------------------

/// What a TOML table holds under a key.
pub enum FieldView {
    Missing,
    Text(Seq<char>),
    Integer(int),
    Other,
}

/// What a TOML table holds under a key.
#[derive(Debug, PartialEq, Eq)]
pub enum TomlField {
    /// Nothing.
    Missing,
    /// A string.
    Text(String),
    /// An integer.
    Integer(i64),
    /// A value of another type.
    Other,
}

impl View for TomlField {
    type V = FieldView;

    open spec fn view(&self) -> FieldView {
        match self {
            TomlField::Missing => FieldView::Missing,
            TomlField::Text(s) => FieldView::Text(s@),
            TomlField::Integer(n) => FieldView::Integer(*n as int),
            TomlField::Other => FieldView::Other,
        }
    }
}

/// What the TOML document `text` holds under the top-level key `key`, or the
/// message of the error when it is no TOML document.
pub uninterp spec fn toml_field(text: Seq<char>, key: Seq<char>) -> Result<FieldView, Seq<char>>;

/// One line of a simple TOML table.
#[verifier::ext_equal]
pub struct TomlEntry {
    pub key: Seq<char>,
    pub value: FieldView,
}

/// Whether `c` may stand in a bare TOML key.
pub open spec fn is_key_char(c: char) -> bool {
    matcher::is_ascii_word(c) || c == '-'
}

/// Whether a text stands for itself between the quotes of a TOML string: it
/// holds no quote, backslash, or control character but the tab.
pub open spec fn is_literal(s: Seq<char>) -> bool {
    forall|i: int|
        0 <= i < s.len() ==> {
            let c = #[trigger] s[i];
            c != '"' && c != '\\' && (c as u32 >= 0x20 || c == '\t') && c as u32 != 0x7F
        }
}

/// The TOML line of an entry.
pub open spec fn entry_text(e: TomlEntry) -> Seq<char> {
    e.key + " = "@ + (match e.value {
        FieldView::Text(s) => "\""@ + s + "\""@,
        FieldView::Integer(n) => text::decimal(n as nat),
        _ => Seq::empty(),
    })
}

/// The TOML document made of a list of entries, one per line.
pub open spec fn table_text(es: Seq<TomlEntry>) -> Seq<char>
    decreases es.len(),
{
    if es.len() == 0 {
        Seq::empty()
    } else if es.len() == 1 {
        entry_text(es[0])
    } else {
        table_text(es.drop_last()) + "\n"@ + entry_text(es.last())
    }
}

/// Whether a list of entries is a TOML table: bare keys that do not repeat,
/// and values that are literal texts or natural numbers of 63 bits.
pub open spec fn is_table(es: Seq<TomlEntry>) -> bool {
    &&& forall|k: int|
        0 <= k < es.len() ==> {
            let e = #[trigger] es[k];
            &&& e.key.len() > 0
            &&& forall|i: int| 0 <= i < e.key.len() ==> is_key_char(#[trigger] e.key[i])
            &&& match e.value {
                FieldView::Text(s) => is_literal(s),
                FieldView::Integer(n) => 0 <= n <= i64::MAX,
                _ => false,
            }
        }
    &&& forall|j: int, k: int|
        0 <= j < k < es.len() ==> (#[trigger] es[j]).key != (#[trigger] es[k]).key
}

/// The content of a lookup's outcome.
pub open spec fn lookup_view(r: Result<TomlField, String>) -> Result<FieldView, Seq<char>> {
    match r {
        Ok(field) => Ok(field@),
        Err(message) => Err(message@),
    }
}

/// Whether `found` is what a table of simple entries holds under `key`, if
/// `text` is the document of such a table with that key.
pub open spec fn reads_tables(
    text: Seq<char>,
    key: Seq<char>,
    found: Result<FieldView, Seq<char>>,
) -> bool {
    forall|es: Seq<TomlEntry>, k: int|
        #![trigger table_text(es), es[k]]
        table_text(es) == text && is_table(es) && 0 <= k < es.len() && es[k].key == key ==> found
            == Ok::<FieldView, Seq<char>>(es[k].value)
}

/// Reads a top-level key of a TOML document; calls `toml::from_str` and
/// `toml::Value::get`. The outcome depends on the document and the key alone.
/// It is stated in full for a document that is a table of simple entries: the
/// value of the entry with that key.
#[verifier::external_body]
fn toml_lookup(text: &str, key: &str) -> (r: Result<TomlField, String>)
    ensures
        lookup_view(r) == toml_field(text@, key@),
        reads_tables(text@, key@, lookup_view(r)),
{
    let table: toml::Value = toml::from_str(text).map_err(|e: toml::de::Error| e.to_string())?;
    Ok(match table.get(key) {
        None => TomlField::Missing,
        Some(toml::Value::String(s)) => TomlField::Text(s.clone()),
        Some(toml::Value::Integer(n)) => TomlField::Integer(*n),
        Some(_) => TomlField::Other,
    })
}

// ---------------------------------------------------------------------------
// Rendering
// ---------------------------------------------------------------------------

/// A text without trailing line feeds.
pub open spec fn drop_newlines(s: Seq<char>) -> Seq<char>
    decreases s.len(),
{
    if s.len() > 0 && s.last() == '\n' {
        drop_newlines(s.drop_last())
    } else {
        s
    }
}

/// The frontmatter entries of a draft.
pub open spec fn draft_entries(d: DraftView) -> Seq<TomlEntry> {
    seq![
        TomlEntry { key: "tool"@, value: FieldView::Text(TOOL_NAME@) },
        TomlEntry { key: "version"@, value: FieldView::Integer(DRAFT_VERSION as int) },
        TomlEntry { key: "category"@, value: FieldView::Text(d.category) },
        TomlEntry { key: "path"@, value: FieldView::Text(d.path) },
        TomlEntry { key: "commit"@, value: FieldView::Text(d.commit) },
    ]
}

/// The title line of a draft file.
pub open spec fn title_line(d: DraftView) -> Seq<char> {
    "# Title: "@ + d.title + "\n"@
}

/// The context section of a draft file, with the blank lines around it.
pub open spec fn context_section(s: SnippetView) -> Seq<char> {
    "\n## Context\n```"@ + s.language + "\n"@ + drop_newlines(s.text) + "\n```\n\n"@
}

/// The description section of a draft file.
pub open spec fn description_section(d: DraftView) -> Seq<char> {
    "## Description"@ + "\n"@ + d.description + "\n"@
}

/// The draft file of an issue, with a snippet as context.
pub open spec fn draft_text(d: DraftView, s: SnippetView) -> Seq<char> {
    "---\n"@ + table_text(draft_entries(d)) + "\n---\n"@ + (title_line(d) + context_section(s)
        + description_section(d))
}

/// `s` without trailing line feeds.
fn trim_newlines(s: &str) -> (r: String)
    ensures
        r@ == drop_newlines(s@),
{
    let cs = text::chars_of(s);
    let mut end: usize = cs.len();
    assert(cs@.take(cs.len() as int) == cs@);
    while end > 0 && cs[end - 1] == '\n'
        invariant
            end <= cs.len(),
            drop_newlines(cs@) == drop_newlines(cs@.take(end as int)),
        decreases end,
    {
        assert(cs@.take(end as int).drop_last() == cs@.take(end - 1));
        end -= 1;
    }
    assert(cs@.subrange(0, end as int) == cs@.take(end as int));
    text::string_of(&text::slice_of(&cs, 0, end))
}

/// Appends a line `key = "value"` to a TOML document.
fn push_text_entry(out: &mut String, key: &str, value: &str)
    ensures
        final(out)@ == old(out)@ + entry_text(
            TomlEntry { key: key@, value: FieldView::Text(value@) },
        ),
{
    let ghost before = out@;
    out.append(key);
    out.append(" = ");
    out.append("\"");
    out.append(value);
    out.append("\"");
    assert(out@ == before + (key@ + " = "@ + ("\""@ + value@ + "\""@)));
}

/// The frontmatter of a draft.
fn render_frontmatter(draft: &IssueDraft) -> (r: String)
    ensures
        r@ == table_text(draft_entries(draft@)),
{
    let ghost es = draft_entries(draft@);
    let mut out = String::new();
    push_text_entry(&mut out, "tool", TOOL_NAME);
    let ghost first = out@;
    assert(first == entry_text(es[0]));
    out.append("\n");
    out.append("version");
    out.append(" = ");
    let version = text::decimal_string(1);
    out.append(version.as_str());
    let ghost second = out@;
    assert(second == first + "\n"@ + entry_text(es[1]));
    out.append("\n");
    push_text_entry(&mut out, "category", draft.category.as_str());
    let ghost third = out@;
    out.append("\n");
    push_text_entry(&mut out, "path", draft.path.as_str());
    let ghost fourth = out@;
    out.append("\n");
    push_text_entry(&mut out, "commit", draft.commit.as_str());
    proof {
        lemma_table_five(es);
        assert(third == second + "\n"@ + entry_text(es[2]));
        assert(fourth == third + "\n"@ + entry_text(es[3]));
        assert(out@ == fourth + "\n"@ + entry_text(es[4]));
    }
    out
}

/// The document of a table with five entries.
proof fn lemma_table_five(es: Seq<TomlEntry>)
    requires
        es.len() == 5,
    ensures
        table_text(es) == entry_text(es[0]) + "\n"@ + entry_text(es[1]) + "\n"@ + entry_text(es[2])
            + "\n"@ + entry_text(es[3]) + "\n"@ + entry_text(es[4]),
{
    reveal_with_fuel(table_text, 5);
    assert(es.drop_last().drop_last().drop_last().drop_last()[0] == es[0]);
}

/// A draft file is the frontmatter with tool, version, category, path and
/// commit, the title, the snippet without line feeds at its end in a fence
/// with its language, and the description.
pub proof fn law_draft_files_hold_the_draft(d: DraftView, s: SnippetView) -> (n: int)
    ensures
        0 <= n <= s.text.len(),
        n > 0 ==> s.text[n - 1] != '\n',
        forall|k: int| n <= k < s.text.len() ==> s.text[k] == '\n',
        draft_text(d, s) == "---\ntool = \"todone\"\nversion = 1\ncategory = \""@ + d.category
            + "\"\npath = \""@ + d.path + "\"\ncommit = \""@ + d.commit + "\"\n---\n# Title: "@
            + d.title + "\n\n## Context\n```"@ + s.language + "\n"@ + s.text.take(n)
            + "\n```\n\n## Description\n"@ + d.description + "\n"@,
{
    let n = lemma_drop_newlines(s.text);
    let code = s.text.take(n);
    let es = draft_entries(d);
    lemma_table_five(es);
    lemma_front_text(d);
    let front = "tool = \"todone\"\nversion = 1\ncategory = \""@ + d.category + "\"\npath = \""@
        + d.path + "\"\ncommit = \""@ + d.commit + "\""@;
    assert(table_text(es) == front);
    reveal_strlit("---\n");
    reveal_strlit("tool = \"todone\"\nversion = 1\ncategory = \"");
    reveal_strlit("---\ntool = \"todone\"\nversion = 1\ncategory = \"");
    reveal_strlit("\"");
    reveal_strlit("\n---\n");
    reveal_strlit("# Title: ");
    reveal_strlit("\"\n---\n# Title: ");
    reveal_strlit("\n");
    reveal_strlit("\n## Context\n```");
    reveal_strlit("\n\n## Context\n```");
    reveal_strlit("\n```\n\n");
    reveal_strlit("## Description");
    reveal_strlit("\n```\n\n## Description\n");
    assert("---\n"@ + "tool = \"todone\"\nversion = 1\ncategory = \""@
        == "---\ntool = \"todone\"\nversion = 1\ncategory = \""@);
    assert("\""@ + "\n---\n"@ + "# Title: "@ == "\"\n---\n# Title: "@);
    assert("\n"@ + "\n## Context\n```"@ == "\n\n## Context\n```"@);
    assert("\n```\n\n"@ + "## Description"@ + "\n"@ == "\n```\n\n## Description\n"@);
    // The frontmatter and the lines that close it.
    let top = "---\ntool = \"todone\"\nversion = 1\ncategory = \""@ + d.category
        + "\"\npath = \""@ + d.path + "\"\ncommit = \""@ + d.commit;
    assert("---\n"@ + front == top + "\""@);
    let whole = "---\n"@ + front + "\n---\n"@;
    let title = "# Title: "@ + d.title + "\n"@;
    let fence = "\n## Context\n```"@ + s.language + "\n"@ + code + "\n```\n\n"@;
    let tail = "## Description"@ + "\n"@ + d.description + "\n"@;
    assert(draft_text(d, s) == whole + (title + fence + tail));
    let x = top + "\"\n---\n# Title: "@ + d.title;
    assert(whole + title == x + "\n"@);
    let y = x + "\n\n## Context\n```"@ + s.language + "\n"@ + code;
    assert(x + "\n"@ + fence == y + "\n```\n\n"@);
    assert(y + "\n```\n\n"@ + tail == y + "\n```\n\n## Description\n"@ + d.description + "\n"@);
    assert(whole + (title + fence + tail) == whole + title + fence + tail);
    n
}

/// The frontmatter of a draft, in full.
proof fn lemma_front_text(d: DraftView)
    ensures
        ({
            let es = draft_entries(d);
            entry_text(es[0]) + "\n"@ + entry_text(es[1]) + "\n"@ + entry_text(es[2]) + "\n"@
                + entry_text(es[3]) + "\n"@ + entry_text(es[4])
                == "tool = \"todone\"\nversion = 1\ncategory = \""@ + d.category
                + "\"\npath = \""@ + d.path + "\"\ncommit = \""@ + d.commit + "\""@
        }),
{
    let es = draft_entries(d);
    reveal_strlit("tool");
    reveal_strlit("todone");
    reveal_strlit("version");
    reveal_strlit("category");
    reveal_strlit("path");
    reveal_strlit("commit");
    reveal_strlit(" = ");
    reveal_strlit("\"");
    reveal_strlit("\n");
    reveal_strlit("tool = \"todone\"\nversion = 1\ncategory = \"");
    reveal_strlit("\"\npath = \"");
    reveal_strlit("\"\ncommit = \"");
    assert(text::decimal(1) == seq!['1']);
    let a = "tool"@ + " = "@ + ("\""@ + "todone"@ + "\""@);
    let b = "version"@ + " = "@ + text::decimal(1);
    assert(entry_text(es[0]) == a);
    assert(entry_text(es[1]) == b);
    let c = "category"@ + " = "@ + "\""@;
    assert(a + "\n"@ + b + "\n"@ + c == "tool = \"todone\"\nversion = 1\ncategory = \""@);
    let e = "path"@ + " = "@ + "\""@;
    let f = "commit"@ + " = "@ + "\""@;
    assert("\""@ + "\n"@ + e == "\"\npath = \""@);
    assert("\""@ + "\n"@ + f == "\"\ncommit = \""@);
    assert(entry_text(es[2]) == c + d.category + "\""@);
    assert(entry_text(es[3]) == e + d.path + "\""@);
    assert(entry_text(es[4]) == f + d.commit + "\""@);
    let head = a + "\n"@ + b + "\n"@;
    assert(head + entry_text(es[2]) == head + c + d.category + "\""@);
    let x = head + c + d.category;
    assert(x + "\""@ + "\n"@ + entry_text(es[3]) == x + ("\""@ + "\n"@ + e) + d.path + "\""@);
    let y = x + "\"\npath = \""@ + d.path;
    assert(y + "\""@ + "\n"@ + entry_text(es[4]) == y + ("\""@ + "\n"@ + f) + d.commit + "\""@);
}

/// What [`drop_newlines`] leaves.
proof fn lemma_drop_newlines(s: Seq<char>) -> (n: int)
    ensures
        0 <= n <= s.len(),
        drop_newlines(s) == s.take(n),
        n > 0 ==> s[n - 1] != '\n',
        forall|k: int| n <= k < s.len() ==> s[k] == '\n',
    decreases s.len(),
{
    if s.len() > 0 && s.last() == '\n' {
        let n = lemma_drop_newlines(s.drop_last());
        assert(s.drop_last().take(n) == s.take(n));
        assert forall|k: int| n <= k < s.len() implies s[k] == '\n' by {
            if k < s.len() - 1 {
                assert(s.drop_last()[k] == '\n');
            }
        }
        n
    } else {
        assert(s.take(s.len() as int) == s);
        s.len() as int
    }
}

/// Renders the editable draft file for `draft`, embedding `snippet` as
/// context. The output is the exact input format [`parse_draft`] expects.
pub fn render_draft(draft: &IssueDraft, snippet: &ContextSnippet) -> (r: String)
    ensures
        r@ == draft_text(draft@, snippet@),
{
    let frontmatter = render_frontmatter(draft);
    let snippet_text = trim_newlines(snippet.text.as_str());
    let mut out = "---\n".to_owned();
    out.append(frontmatter.as_str());
    out.append("\n---\n");
    let ghost head = out@;
    let mut body = "# Title: ".to_owned();
    body.append(draft.title.as_str());
    body.append("\n");
    let ghost title = body@;
    body.append("\n## Context\n```");
    body.append(snippet.language.as_str());
    body.append("\n");
    body.append(snippet_text.as_str());
    body.append("\n```\n\n");
    assert(body@ == title + context_section(snippet@));
    let ghost context = body@;
    body.append("## Description");
    body.append("\n");
    body.append(draft.description.as_str());
    body.append("\n");
    assert(body@ == context + description_section(draft@));
    out.append(body.as_str());
    out
}

// ---------------------------------------------------------------------------
// Parsing
// ---------------------------------------------------------------------------

/// Errors produced while decoding a draft file.
#[derive(Debug, PartialEq, Eq)]
pub enum DraftError {
    /// The leading `---` frontmatter block is missing or unclosed.
    NoFrontmatter,
    /// The frontmatter is not valid TOML.
    InvalidFrontmatter(String),
    /// The frontmatter names a different tool or an unknown version.
    UnknownToolOrVersion,
    /// A required frontmatter field is missing.
    MissingField(&'static str),
    /// The `# Title:` line is missing.
    NoTitle,
    /// The `## Description` section is missing.
    NoDescription,
    /// The title was not replaced; the template was likely not edited.
    PlaceholderTitle,
}

impl DraftError {
    /// The text of [`Self::message`].
    pub open spec fn text(self) -> Seq<char> {
        self.fault().text()
    }

    /// A human-readable description of the error.
    pub fn message(&self) -> (r: String)
        ensures
            r@ == self.text(),
    {
        match self {
            DraftError::NoFrontmatter =>
            "missing frontmatter block; keep the --- section at the top of the file".to_owned(),
            DraftError::InvalidFrontmatter(detail) => {
                let mut s = "frontmatter is not valid: ".to_owned();
                s.append(detail.as_str());
                s
            },
            DraftError::UnknownToolOrVersion =>
            "frontmatter must declare tool = \"todone\" and version = 1".to_owned(),
            DraftError::MissingField(name) => {
                let mut s = "frontmatter is missing the `".to_owned();
                s.append(name);
                s.append("` field");
                s
            },
            DraftError::NoTitle => "missing `# Title:` line".to_owned(),
            DraftError::NoDescription => "missing `## Description` section".to_owned(),
            DraftError::PlaceholderTitle =>
            "title still contains the placeholder; write a real title (or quit without saving)".to_owned(),
        }
    }
}

/// What is wrong with a draft file.
pub enum DraftFault {
    NoFrontmatter,
    InvalidFrontmatter(Seq<char>),
    UnknownToolOrVersion,
    MissingField(Seq<char>),
    NoTitle,
    NoDescription,
    PlaceholderTitle,
}

impl DraftFault {
    /// The fault in words.
    pub open spec fn text(self) -> Seq<char> {
        match self {
            DraftFault::NoFrontmatter =>
            "missing frontmatter block; keep the --- section at the top of the file"@,
            DraftFault::InvalidFrontmatter(detail) => "frontmatter is not valid: "@ + detail,
            DraftFault::UnknownToolOrVersion =>
            "frontmatter must declare tool = \"todone\" and version = 1"@,
            DraftFault::MissingField(name) => "frontmatter is missing the `"@ + name + "` field"@,
            DraftFault::NoTitle => "missing `# Title:` line"@,
            DraftFault::NoDescription => "missing `## Description` section"@,
            DraftFault::PlaceholderTitle =>
            "title still contains the placeholder; write a real title (or quit without saving)"@,
        }
    }
}

impl DraftError {
    /// What the error says is wrong.
    pub open spec fn fault(self) -> DraftFault {
        match self {
            DraftError::NoFrontmatter => DraftFault::NoFrontmatter,
            DraftError::InvalidFrontmatter(detail) => DraftFault::InvalidFrontmatter(detail@),
            DraftError::UnknownToolOrVersion => DraftFault::UnknownToolOrVersion,
            DraftError::MissingField(name) => DraftFault::MissingField(name@),
            DraftError::NoTitle => DraftFault::NoTitle,
            DraftError::NoDescription => DraftFault::NoDescription,
            DraftError::PlaceholderTitle => DraftFault::PlaceholderTitle,
        }
    }
}

/// The frontmatter and the body of a draft file, when it has a frontmatter
/// block: whitespace, a `---` line, the frontmatter, a `---` line, the body.
pub open spec fn split_file(content: Seq<char>) -> Option<(Seq<char>, Seq<char>)> {
    let t = text::trim_left(text::unix_text(content));
    if !text::starts_with(t, "---\n"@) {
        None
    } else {
        let rest = t.skip("---\n"@.len() as int);
        match text::find_from(rest, "\n---\n"@, 0) {
            None => None,
            Some(i) => Some((rest.take(i), rest.skip(i + "\n---\n"@.len()))),
        }
    }
}

/// What follows `# Title:` on the first of `ls`, from index `k` on, that
/// starts so.
pub open spec fn title_from(ls: Seq<text::TextLine>, k: int) -> Option<Seq<char>>
    decreases ls.len() - k,
{
    if k < 0 || k >= ls.len() {
        None
    } else if text::starts_with(ls[k].text, "# Title:"@) {
        Some(ls[k].text.skip("# Title:"@.len() as int))
    } else {
        title_from(ls, k + 1)
    }
}

/// The trimmed text, unless it is empty.
pub open spec fn nonempty_trimmed(s: Option<Seq<char>>) -> Option<Seq<char>> {
    match s {
        Some(t) => if text::trim_both(t).len() == 0 {
            None
        } else {
            Some(text::trim_both(t))
        },
        None => None,
    }
}

/// The title of a draft file's body.
pub open spec fn title_of(body: Seq<char>) -> Option<Seq<char>> {
    nonempty_trimmed(title_from(text::lines_of(body), 0))
}

/// Where the search for the description heading starts in `b`, a body with a
/// line feed before it: behind the fence that closes the context section,
/// when that comes before any heading line. The closing fence is the first
/// one after which an empty line and the heading follow, or else the first
/// one.
pub open spec fn heading_start(b: Seq<char>) -> int {
    match text::find_from(b, "\n## Context\n```"@, 0) {
        Some(i) => {
            let heading = text::find_from(b, "\n## Description"@, 0);
            let inside = i + "\n## Context\n```"@.len();
            if heading is Some && heading->0 < i {
                0
            } else {
                match (
                    text::find_from(b, "\n```\n\n## Description"@, inside),
                    text::find_from(b, "\n```\n"@, inside),
                ) {
                    (Some(j), _) => j + 4,
                    (None, Some(j)) => j + 4,
                    (None, None) => 0,
                }
            }
        },
        None => 0,
    }
}

/// Where the description heading stands in `b` within a line: before the
/// context section, or else behind it.
pub open spec fn loose_heading(b: Seq<char>) -> Option<int> {
    match (
        text::find_from(b, "## Description"@, 0),
        text::find_from(b, "\n## Context\n```"@, 0),
    ) {
        (Some(i), None) => Some(i),
        (Some(i), Some(c)) => if i < c {
            Some(i)
        } else {
            text::find_from(b, "## Description"@, heading_start(b))
        },
        (None, _) => None,
    }
}

/// What follows the description heading, the context section aside: in the
/// first line that starts with it or, where none does, at its first
/// occurrence.
pub open spec fn after_heading(body: Seq<char>) -> Option<Seq<char>> {
    let b = "\n"@ + body;
    match text::find_from(b, "\n## Description"@, heading_start(b)) {
        Some(i) => Some(b.skip(i + "\n## Description"@.len())),
        None => match loose_heading(b) {
            Some(i) => Some(b.skip(i + "## Description"@.len())),
            None => None,
        },
    }
}

/// The description of a draft file's body.
pub open spec fn description_of(body: Seq<char>) -> Option<Seq<char>> {
    nonempty_trimmed(after_heading(body))
}

/// The frontmatter fields of a draft file.
pub struct FieldsView {
    pub tool: FieldView,
    pub version: FieldView,
    pub category: FieldView,
    pub path: FieldView,
    pub commit: FieldView,
}

/// What a draft file with the given frontmatter fields and body stands for.
pub open spec fn decoded(fields: FieldsView, body: Seq<char>) -> Result<DraftView, DraftFault> {
    if !(fields.tool is Text) {
        Err(DraftFault::MissingField("tool"@))
    } else if !(fields.version is Integer) {
        Err(DraftFault::MissingField("version"@))
    } else if fields.tool != FieldView::Text(TOOL_NAME@) || fields.version != FieldView::Integer(
        DRAFT_VERSION as int,
    ) {
        Err(DraftFault::UnknownToolOrVersion)
    } else if !(fields.category is Text) {
        Err(DraftFault::MissingField("category"@))
    } else if !(fields.path is Text) {
        Err(DraftFault::MissingField("path"@))
    } else if !(fields.commit is Text) {
        Err(DraftFault::MissingField("commit"@))
    } else if title_of(body) is None {
        Err(DraftFault::NoTitle)
    } else if description_of(body) is None {
        Err(DraftFault::NoDescription)
    } else if title_of(body) == Some(TITLE_PLACEHOLDER@) {
        Err(DraftFault::PlaceholderTitle)
    } else {
        Ok(
            DraftView {
                category: fields.category->Text_0,
                path: fields.path->Text_0,
                commit: fields.commit->Text_0,
                title: title_of(body)->0,
                description: description_of(body)->0,
            },
        )
    }
}

/// What a draft file stands for.
pub open spec fn parsed(content: Seq<char>) -> Result<DraftView, DraftFault> {
    match split_file(content) {
        None => Err(DraftFault::NoFrontmatter),
        Some((front, body)) => match (
            toml_field(front, "tool"@),
            toml_field(front, "version"@),
            toml_field(front, "category"@),
            toml_field(front, "path"@),
            toml_field(front, "commit"@),
        ) {
            (Ok(tool), Ok(version), Ok(category), Ok(path), Ok(commit)) => decoded(
                FieldsView { tool, version, category, path, commit },
                body,
            ),
            (Err(e), _, _, _, _) => Err(DraftFault::InvalidFrontmatter(e)),
            (_, Err(e), _, _, _) => Err(DraftFault::InvalidFrontmatter(e)),
            (_, _, Err(e), _, _) => Err(DraftFault::InvalidFrontmatter(e)),
            (_, _, _, Err(e), _) => Err(DraftFault::InvalidFrontmatter(e)),
            (_, _, _, _, Err(e)) => Err(DraftFault::InvalidFrontmatter(e)),
        },
    }
}

/// A file with a frontmatter block is split at the lines that enclose it.
pub proof fn law_the_frontmatter_stands_between_its_lines(front: Seq<char>, body: Seq<char>)
    requires
        text::no_crlf("---\n"@ + front + "\n---\n"@ + body),
        forall|k: int|
            0 <= k < front.len() ==> !text::occurs_at(
                front + "\n---\n"@ + body,
                "\n---\n"@,
                k,
            ),
    ensures
        split_file("---\n"@ + front + "\n---\n"@ + body) == Some((front, body)),
{
    reveal_strlit("---\n");
    reveal_strlit("\n---\n");
    let content = "---\n"@ + front + "\n---\n"@ + body;
    let rest = front + "\n---\n"@ + body;
    text::lemma_unix_fixed(content);
    assert(content[0] == '-');
    assert(text::trim_left(content) == content);
    assert(content.subrange(0, 4) == "---\n"@);
    assert(content.skip(4) == rest);
    let n = front.len() as int;
    assert(rest.subrange(n, n + 5) == "\n---\n"@);
    text::lemma_find_is(rest, "\n---\n"@, 0, n);
    assert(rest.take(n) == front);
    assert(rest.skip(n + 5) == body);
}

/// A draft is refused for the first thing that is missing, in this order: the
/// tool, the version, that both are the right ones, the category, the path,
/// the commit, the title, the description, and that the title was written.
pub proof fn law_the_first_fault_is_told(fields: FieldsView, body: Seq<char>)
    ensures
        match decoded(fields, body) {
            Ok(d) => {
                &&& fields.tool == FieldView::Text("todone"@)
                &&& fields.version == FieldView::Integer(1)
                &&& fields.category == FieldView::Text(d.category)
                &&& fields.path == FieldView::Text(d.path)
                &&& fields.commit == FieldView::Text(d.commit)
                &&& title_of(body) == Some(d.title)
                &&& description_of(body) == Some(d.description)
            },
            Err(fault) => {
                let declared = fields.tool is Text && fields.version is Integer;
                let ours = fields.tool == FieldView::Text("todone"@) && fields.version
                    == FieldView::Integer(1);
                let filled = fields.category is Text && fields.path is Text && fields.commit is Text;
                &&& !(fields.tool is Text) ==> fault == DraftFault::MissingField("tool"@)
                &&& fields.tool is Text && !(fields.version is Integer) ==> fault
                    == DraftFault::MissingField("version"@)
                &&& fault is UnknownToolOrVersion <==> declared && !ours
                &&& ours && !(fields.category is Text) ==> fault == DraftFault::MissingField(
                    "category"@,
                )
                &&& ours && fields.category is Text && !(fields.path is Text) ==> fault
                    == DraftFault::MissingField("path"@)
                &&& ours && fields.category is Text && fields.path is Text && !(fields.commit
                    is Text) ==> fault == DraftFault::MissingField("commit"@)
                &&& fault is NoTitle <==> ours && filled && title_of(body) is None
                &&& fault is NoDescription <==> ours && filled && title_of(body) is Some
                    && description_of(body) is None
                &&& fault is PlaceholderTitle <==> ours && filled && description_of(body) is Some
                    && title_of(body) == Some("<write title here>"@)
            },
        },
{
}

/// The description is what follows the first description heading that starts
/// a line, without the whitespace around it, in a body without a context
/// section; a blank one is none.
pub proof fn law_the_description_follows_its_heading(a: Seq<char>, d: Seq<char>)
    requires
        !text::occurs("\n"@ + (a + "\n## Description"@ + d), "\n## Context\n```"@),
        forall|k: int|
            0 <= k <= a.len() ==> !text::occurs_at(
                "\n"@ + (a + "\n## Description"@ + d),
                "\n## Description"@,
                k,
            ),
    ensures
        description_of(a + "\n## Description"@ + d) == (if text::is_blank(d) {
            None
        } else {
            Some(text::trim_both(d))
        }),
{
    reveal_strlit("\n");
    reveal_strlit("\n## Description");
    let h = "\n## Description"@;
    let body = a + h + d;
    let b = "\n"@ + body;
    let n = a.len() + 1;
    text::lemma_find(b, "\n## Context\n```"@, 0);
    assert(text::find_from(b, "\n## Context\n```"@, 0) is None) by {
        if let Some(i) = text::find_from(b, "\n## Context\n```"@, 0) {
            assert(text::occurs_at(b, "\n## Context\n```"@, i));
        }
    }
    assert(b.subrange(n as int, (n + h.len()) as int) == h);
    text::lemma_find_is(b, h, 0, n as int);
    assert(b.skip((n + h.len()) as int) == d);
    let (i, j) = text::lemma_trim_both_shape(d);
    if text::is_blank(d) {
        if i < j {
            assert(text::is_white(d[i]));
        }
    }
}

/// Line endings do not matter: a file whose lines end in `\r\n` stands for
/// what it stands for with `\n`.
pub proof fn law_line_endings_do_not_matter(content: Seq<char>)
    requires
        text::no_crlf(content),
    ensures
        parsed(text::crlf_text(content)) == parsed(content),
{
    text::lemma_crlf_undone(content);
    text::lemma_unix_fixed(content);
}

/// Whether a result is the outcome `o`.
pub open spec fn is_outcome(
    r: Result<IssueDraft, DraftError>,
    o: Result<DraftView, DraftFault>,
) -> bool {
    match r {
        Ok(d) => o == Ok::<DraftView, DraftFault>(d@),
        Err(e) => o == Err::<DraftView, DraftFault>(e.fault()),
    }
}

/// The frontmatter fields of a draft file.
#[derive(Debug)]
pub struct Frontmatter {
    /// The tool that wrote the file.
    pub tool: TomlField,
    /// The template version.
    pub version: TomlField,
    /// The matched category.
    pub category: TomlField,
    /// The path of the finding.
    pub path: TomlField,
    /// The commit the scan ran against.
    pub commit: TomlField,
}

impl View for Frontmatter {
    type V = FieldsView;

    open spec fn view(&self) -> FieldsView {
        FieldsView {
            tool: self.tool@,
            version: self.version@,
            category: self.category@,
            path: self.path@,
            commit: self.commit@,
        }
    }
}

/// The frontmatter and the body of a draft file, when it has a frontmatter
/// block.
pub fn split_draft(content: &str) -> (r: Option<(String, String)>)
    ensures
        match r {
            Some((front, body)) => split_file(content@) == Some((front@, body@)),
            None => split_file(content@) is None,
        },
{
    let t = text::trim_start_chars(&text::unix_chars(&text::chars_of(content)));
    let open = text::chars_of("---\n");
    let close = text::chars_of("\n---\n");
    if !text::stands_at(&t, &open, 0) {
        return None;
    }
    let rest = text::slice_of(&t, open.len(), t.len());
    assert(rest@ == t@.skip(open@.len() as int));
    match text::find_chars(&rest, &close, 0) {
        None => None,
        Some(i) => {
            let front = text::slice_of(&rest, 0, i);
            let body = text::slice_of(&rest, i + close.len(), rest.len());
            assert(front@ == rest@.take(i as int));
            assert(body@ == rest@.skip(i + close@.len()));
            Some((text::string_of(&front), text::string_of(&body)))
        },
    }
}

/// The title of a draft file's body.
fn find_title(body: &Vec<char>) -> (r: Option<String>)
    requires
        text::byte_len(body@) <= usize::MAX,
    ensures
        match r {
            Some(t) => title_of(body@) == Some(t@),
            None => title_of(body@) is None,
        },
{
    let lines = text::split_lines(body);
    let marker = text::chars_of("# Title:");
    let ghost ls = text::lines_of(body@);
    assert(text::buf_lines(lines@).len() == lines@.len());
    let mut i: usize = 0;
    while i < lines.len()
        invariant
            i <= lines.len(),
            ls == text::lines_of(body@),
            text::buf_lines(lines@) == ls,
            marker@ == "# Title:"@,
            title_from(ls, 0) == title_from(ls, i as int),
        decreases lines.len() - i,
    {
        let line = &lines[i].text;
        assert(text::buf_lines(lines@)[i as int].text == line@);
        if text::stands_at(line, &marker, 0) {
            let rest = text::slice_of(line, marker.len(), line.len());
            assert(rest@ == line@.skip(marker@.len() as int));
            let title = text::trim_chars(&rest);
            return if title.len() == 0 {
                None
            } else {
                Some(text::string_of(&title))
            };
        }
        i += 1;
    }
    None
}

/// Where the search for the description heading starts.
fn search_start(b: &Vec<char>, heading: &Vec<char>) -> (r: usize)
    requires
        heading@ == "\n## Description"@,
    ensures
        r == heading_start(b@),
        r <= b.len(),
{
    proof {
        reveal_strlit("\n```\n");
        reveal_strlit("\n```\n\n## Description");
    }
    let opening = text::chars_of("\n## Context\n```");
    let ending = text::chars_of("\n```\n\n## Description");
    let fence = text::chars_of("\n```\n");
    match text::find_chars(b, &opening, 0) {
        Some(i) => {
            if let Some(h) = text::find_chars(b, heading, 0) {
                if h < i {
                    return 0;
                }
            }
            let inside: usize = i + opening.len();
            match text::find_chars(b, &ending, inside) {
                Some(j) => j + 4,
                None => match text::find_chars(b, &fence, inside) {
                    Some(j) => j + 4,
                    None => 0,
                },
            }
        },
        None => 0,
    }
}

/// The description of a draft file's body.
fn find_description(body: &Vec<char>) -> (r: Option<String>)
    ensures
        match r {
            Some(t) => description_of(body@) == Some(t@),
            None => description_of(body@) is None,
        },
{
    let heading = text::chars_of("\n## Description");
    let mut b = text::chars_of("\n");
    text::extend_chars(&mut b, body);
    assert(b@ == "\n"@ + body@);
    let from = search_start(&b, &heading);
    let after: usize = match text::find_chars(&b, &heading, from) {
        Some(i) => i + heading.len(),
        None => match find_loose(&b, from) {
            Some(i) => i,
            None => {
                return None;
            },
        },
    };
    let rest = text::slice_of(&b, after, b.len());
    assert(rest@ == b@.skip(after as int));
    let description = text::trim_chars(&rest);
    if description.len() == 0 {
        None
    } else {
        Some(text::string_of(&description))
    }
}

/// Where a description heading within a line ends.
fn find_loose(b: &Vec<char>, from: usize) -> (r: Option<usize>)
    requires
        from == heading_start(b@),
        from <= b.len(),
    ensures
        match r {
            Some(i) => loose_heading(b@) == Some(i - "## Description"@.len()) && i <= b.len(),
            None => loose_heading(b@) is None,
        },
{
    let heading = text::chars_of("## Description");
    let opening = text::chars_of("\n## Context\n```");
    match (text::find_chars(b, &heading, 0), text::find_chars(b, &opening, 0)) {
        (Some(i), None) => Some(i + heading.len()),
        (Some(i), Some(c)) => if i < c {
            Some(i + heading.len())
        } else {
            match text::find_chars(b, &heading, from) {
                Some(k) => Some(k + heading.len()),
                None => None,
            }
        },
        (None, _) => None,
    }
}

/// The text of a frontmatter field.
fn string_field(field: &TomlField, key: &'static str) -> (r: Result<String, DraftError>)
    ensures
        match r {
            Ok(s) => field@ == FieldView::Text(s@),
            Err(e) => !(field@ is Text) && e.fault() == DraftFault::MissingField(key@),
        },
{
    match field {
        TomlField::Text(s) => Ok(s.clone()),
        _ => Err(DraftError::MissingField(key)),
    }
}

/// Decodes a draft file from its frontmatter fields and its body.
///
/// # Errors
///
/// Returns [`DraftError`] when a field, the title or the description is
/// missing, when the file was not written by this tool and version, and when
/// the title is still the placeholder.
pub fn decode_draft(fields: &Frontmatter, body: &str) -> (r: Result<IssueDraft, DraftError>)
    ensures
        is_outcome(r, decoded(fields@, body@)),
{
    let tool = match string_field(&fields.tool, "tool") {
        Ok(s) => s,
        Err(e) => {
            return Err(e);
        },
    };
    let version: i64 = match &fields.version {
        TomlField::Integer(n) => *n,
        _ => {
            return Err(DraftError::MissingField("version"));
        },
    };
    if !text::same_text(tool.as_str(), TOOL_NAME) || version != 1 {
        return Err(DraftError::UnknownToolOrVersion);
    }
    let category = match string_field(&fields.category, "category") {
        Ok(s) => s,
        Err(e) => {
            return Err(e);
        },
    };
    let path = match string_field(&fields.path, "path") {
        Ok(s) => s,
        Err(e) => {
            return Err(e);
        },
    };
    let commit = match string_field(&fields.commit, "commit") {
        Ok(s) => s,
        Err(e) => {
            return Err(e);
        },
    };
    let cs = text::chars_of(body);
    let title = match find_title(&cs) {
        Some(t) => t,
        None => {
            return Err(DraftError::NoTitle);
        },
    };
    let description = match find_description(&cs) {
        Some(t) => t,
        None => {
            return Err(DraftError::NoDescription);
        },
    };
    if text::same_text(title.as_str(), TITLE_PLACEHOLDER) {
        return Err(DraftError::PlaceholderTitle);
    }
    Ok(IssueDraft { category, path, commit, title, description })
}

/// A draft that can be read declares the tool and the version, has the
/// category, path and commit of its frontmatter, and a title and a description
/// that are not blank and have no whitespace around them; its title is not the
/// placeholder.
pub proof fn law_read_drafts_are_complete(content: Seq<char>, d: DraftView)
    requires
        parsed(content) == Ok::<DraftView, DraftFault>(d),
    ensures
        split_file(content) matches Some((front, body)) && {
            &&& toml_field(front, "tool"@) == Ok::<FieldView, Seq<char>>(
                FieldView::Text("todone"@),
            )
            &&& toml_field(front, "version"@) == Ok::<FieldView, Seq<char>>(FieldView::Integer(1))
            &&& toml_field(front, "category"@) == Ok::<FieldView, Seq<char>>(
                FieldView::Text(d.category),
            )
            &&& toml_field(front, "path"@) == Ok::<FieldView, Seq<char>>(FieldView::Text(d.path))
            &&& toml_field(front, "commit"@) == Ok::<FieldView, Seq<char>>(
                FieldView::Text(d.commit),
            )
        },
        d.title.len() > 0,
        d.title != "<write title here>"@,
        !text::is_white(d.title[0]) && !text::is_white(d.title.last()),
        d.description.len() > 0,
        !text::is_white(d.description[0]) && !text::is_white(d.description.last()),
{
    let (front, body) = split_file(content)->0;
    let a = title_from(text::lines_of(body), 0)->0;
    let b = after_heading(body)->0;
    let (i, j) = text::lemma_trim_both_shape(a);
    let (k, l) = text::lemma_trim_both_shape(b);
    assert(d.title[0] == a[i] && d.title.last() == a[j - 1]);
    assert(d.description[0] == b[k] && d.description.last() == b[l - 1]);
}

/// The file of a tidy draft gives the draft back, where its frontmatter is
/// read as it was written.
pub proof fn law_drafts_are_read_back(d: DraftView, s: SnippetView)
    requires
        is_faithful(d, s),
        toml_field(table_text(draft_entries(d)), "tool"@) == Ok::<FieldView, Seq<char>>(
            FieldView::Text("todone"@),
        ),
        toml_field(table_text(draft_entries(d)), "version"@) == Ok::<FieldView, Seq<char>>(
            FieldView::Integer(1),
        ),
        toml_field(table_text(draft_entries(d)), "category"@) == Ok::<FieldView, Seq<char>>(
            FieldView::Text(d.category),
        ),
        toml_field(table_text(draft_entries(d)), "path"@) == Ok::<FieldView, Seq<char>>(
            FieldView::Text(d.path),
        ),
        toml_field(table_text(draft_entries(d)), "commit"@) == Ok::<FieldView, Seq<char>>(
            FieldView::Text(d.commit),
        ),
    ensures
        parsed(draft_text(d, s)) == Ok::<DraftView, DraftFault>(d),
{
    lemma_split_rendered(d, s);
    lemma_body(d, s);
}

/// The title of a draft is what follows `# Title:` on the first line that
/// starts with it.
pub proof fn law_the_first_title_line_counts(ls: Seq<text::TextLine>, i: int)
    requires
        0 <= i <= ls.len(),
    ensures
        match title_from(ls, i) {
            Some(t) => exists|k: int|
                {
                    &&& i <= k < ls.len()
                    &&& (#[trigger] ls[k]).text == "# Title:"@ + t
                    &&& forall|j: int|
                        i <= j < k ==> !text::starts_with((#[trigger] ls[j]).text, "# Title:"@)
                },
            None => forall|j: int|
                i <= j < ls.len() ==> !text::starts_with((#[trigger] ls[j]).text, "# Title:"@),
        },
    decreases ls.len() - i,
{
    if i < ls.len() {
        if text::starts_with(ls[i].text, "# Title:"@) {
            let n = "# Title:"@.len() as int;
            assert(ls[i].text.subrange(0, n) + ls[i].text.skip(n) == ls[i].text);
            assert(ls[i].text == "# Title:"@ + ls[i].text.skip(n));
        } else {
            law_the_first_title_line_counts(ls, i + 1);
            if let Some(t) = title_from(ls, i + 1) {
                let k = choose|k: int|
                    {
                        &&& i + 1 <= k < ls.len()
                        &&& (#[trigger] ls[k]).text == "# Title:"@ + t
                        &&& forall|j: int|
                            i + 1 <= j < k ==> !text::starts_with(
                                (#[trigger] ls[j]).text,
                                "# Title:"@,
                            )
                    };
                assert(ls[k].text == "# Title:"@ + t);
            }
        }
    }
}

/// Decodes the content of a draft file edited by the user.
///
/// The `## Context` section is ignored; only frontmatter, title, and
/// description are read. A file rendered by [`render_draft`] decodes to the
/// draft it was rendered from (see [`is_faithful`]).
///
/// # Errors
///
/// Returns [`DraftError`] when the template structure was broken; keep the
/// `---` frontmatter, `# Title:` line, and `## Description` section intact.
pub fn parse_draft(content: &str) -> (r: Result<IssueDraft, DraftError>)
    ensures
        is_outcome(r, parsed(content@)),
        forall|d: DraftView, s: SnippetView|
            #[trigger] draft_text(d, s) == content@ && is_faithful(d, s) ==> is_outcome(
                r,
                Ok::<DraftView, DraftFault>(d),
            ),
{
    proof {
        assert forall|d: DraftView, s: SnippetView|
            #[trigger] draft_text(d, s) == content@ && is_faithful(d, s) implies split_file(
            content@,
        ) == Some((table_text(draft_entries(d)), clean_body(d, s))) by {
            lemma_split_rendered(d, s);
        }
    }
    let (front, body) = match split_draft(content) {
        Some(parts) => parts,
        None => {
            return Err(DraftError::NoFrontmatter);
        },
    };
    let tool = toml_lookup(front.as_str(), "tool");
    let version = toml_lookup(front.as_str(), "version");
    let category = toml_lookup(front.as_str(), "category");
    let path = toml_lookup(front.as_str(), "path");
    let commit = toml_lookup(front.as_str(), "commit");
    proof {
        assert forall|d: DraftView, s: SnippetView|
            #[trigger] draft_text(d, s) == content@ && is_faithful(d, s) implies {
            &&& lookup_view(tool) == Ok::<FieldView, Seq<char>>(FieldView::Text(TOOL_NAME@))
            &&& lookup_view(version) == Ok::<FieldView, Seq<char>>(
                FieldView::Integer(DRAFT_VERSION as int),
            )
            &&& lookup_view(category) == Ok::<FieldView, Seq<char>>(FieldView::Text(d.category))
            &&& lookup_view(path) == Ok::<FieldView, Seq<char>>(FieldView::Text(d.path))
            &&& lookup_view(commit) == Ok::<FieldView, Seq<char>>(FieldView::Text(d.commit))
            &&& title_of(body@) == Some(d.title)
            &&& description_of(body@) == Some(d.description)
        } by {
            let es = draft_entries(d);
            lemma_split_rendered(d, s);
            lemma_entries_table(d);
            lemma_body(d, s);
            assert(table_text(es) == front@);
            assert(es[0].key == "tool"@);
            assert(es[1].key == "version"@);
            assert(es[2].key == "category"@);
            assert(es[3].key == "path"@);
            assert(es[4].key == "commit"@);
        }
    }
    match (tool, version, category, path, commit) {
        (Ok(tool), Ok(version), Ok(category), Ok(path), Ok(commit)) => {
            let fields = Frontmatter { tool, version, category, path, commit };
            decode_draft(&fields, body.as_str())
        },
        (Err(e), _, _, _, _) => Err(DraftError::InvalidFrontmatter(e)),
        (_, Err(e), _, _, _) => Err(DraftError::InvalidFrontmatter(e)),
        (_, _, Err(e), _, _) => Err(DraftError::InvalidFrontmatter(e)),
        (_, _, _, Err(e), _) => Err(DraftError::InvalidFrontmatter(e)),
        (_, _, _, _, Err(e)) => Err(DraftError::InvalidFrontmatter(e)),
    }
}

// ---------------------------------------------------------------------------
// The round trip
// ---------------------------------------------------------------------------

/// What stands between the fences of the context section, with line ends
/// normalized.
pub open spec fn fenced(s: SnippetView) -> Seq<char> {
    text::unix_text(s.language + "\n"@ + drop_newlines(s.text) + "\n"@)
}

/// Whether a draft can be read back from its own parts: the frontmatter
/// fields stand for themselves in TOML, title and description are trimmed and
/// not empty, the title is one line and not the placeholder, and the
/// description has no `\r\n`.
pub open spec fn is_tidy(d: DraftView) -> bool {
    &&& is_literal(d.category)
    &&& is_literal(d.path)
    &&& is_literal(d.commit)
    &&& text::trim_both(d.title) == d.title
    &&& d.title.len() > 0
    &&& d.title != TITLE_PLACEHOLDER@
    &&& !d.title.contains('\n')
    &&& text::trim_both(d.description) == d.description
    &&& d.description.len() > 0
    &&& text::no_crlf(d.description)
}

/// Whether a draft comes back from its file as it was: it is tidy, and the
/// snippet does not hold the very lines that end the context section (a
/// fence, an empty line and the description heading).
pub open spec fn is_faithful(d: DraftView, s: SnippetView) -> bool {
    is_tidy(d) && !text::occurs(fenced(s), "\n```\n\n## Description"@)
}

/// The body of a rendered file with line ends normalized.
spec fn clean_body(d: DraftView, s: SnippetView) -> Seq<char> {
    title_line(d) + text::unix_text(context_section(s)) + description_section(d)
}

/// Whether every line feed of a text is followed by something else than a
/// dash.
spec fn no_dash_lines(s: Seq<char>) -> bool {
    forall|k: int| 0 <= k < s.len() && #[trigger] s[k] == '\n' ==> k + 1 < s.len() && s[k + 1] != '-'
}

/// Whether a text holds no line end.
spec fn one_line(s: Seq<char>) -> bool {
    forall|k: int| 0 <= k < s.len() ==> #[trigger] s[k] != '\n' && s[k] != '\r'
}

proof fn lemma_one_line_concat(a: Seq<char>, b: Seq<char>)
    requires
        one_line(a),
        one_line(b),
    ensures
        one_line(a + b),
{
    let s = a + b;
    assert forall|k: int| 0 <= k < s.len() implies #[trigger] s[k] != '\n' && s[k] != '\r' by {
        if k < a.len() {
            assert(a[k] != '\n');
        } else {
            assert(b[k - a.len()] != '\n');
        }
    }
}

proof fn lemma_literal_one_line(s: Seq<char>)
    requires
        is_literal(s),
    ensures
        one_line(s),
{
    assert forall|k: int| 0 <= k < s.len() implies #[trigger] s[k] != '\n' && s[k] != '\r' by {
        assert(s[k] as u32 >= 0x20 || s[k] == '\t');
    }
}

proof fn lemma_text_entry(key: Seq<char>, value: Seq<char>)
    requires
        one_line(key),
        one_line(value),
        key.len() > 0,
    ensures
        one_line(entry_text(TomlEntry { key, value: FieldView::Text(value) })),
        entry_text(TomlEntry { key, value: FieldView::Text(value) }).len() > 0,
        entry_text(TomlEntry { key, value: FieldView::Text(value) })[0] == key[0],
{
    reveal_strlit(" = ");
    reveal_strlit("\"");
    lemma_one_line_concat("\""@, value);
    lemma_one_line_concat("\""@ + value, "\""@);
    lemma_one_line_concat(key, " = "@);
    lemma_one_line_concat(key + " = "@, "\""@ + value + "\""@);
}

proof fn lemma_join_dashless(a: Seq<char>, b: Seq<char>)
    requires
        no_dash_lines(a),
        no_cr(a),
        one_line(b),
        b.len() > 0,
        b[0] != '-',
    ensures
        no_dash_lines(a + "\n"@ + b),
        no_cr(a + "\n"@ + b),
{
    reveal_strlit("\n");
    let s = a + "\n"@ + b;
    assert forall|k: int| 0 <= k < s.len() && #[trigger] s[k] == '\n' implies k + 1 < s.len() && s[k
        + 1] != '-' by {
        if k < a.len() {
            assert(a[k] == '\n');
        } else if k > a.len() {
            assert(b[k - a.len() - 1] != '\n');
        }
    }
    assert forall|k: int| 0 <= k < s.len() implies #[trigger] s[k] != '\r' by {
        if k < a.len() {
            assert(a[k] != '\r');
        } else if k > a.len() {
            assert(b[k - a.len() - 1] != '\r');
        }
    }
}

/// Whether a text holds no carriage return.
spec fn no_cr(s: Seq<char>) -> bool {
    forall|k: int| 0 <= k < s.len() ==> #[trigger] s[k] != '\r'
}

/// The frontmatter of a faithful draft has no carriage return and no line
/// that starts with a dash.
proof fn lemma_frontmatter_lines(d: DraftView)
    requires
        is_literal(d.category),
        is_literal(d.path),
        is_literal(d.commit),
    ensures
        no_dash_lines(table_text(draft_entries(d))),
        no_cr(table_text(draft_entries(d))),
{
    let es = draft_entries(d);
    lemma_table_five(es);
    reveal_strlit("tool");
    reveal_strlit("version");
    reveal_strlit("category");
    reveal_strlit("path");
    reveal_strlit("commit");
    reveal_strlit("todone");
    reveal_strlit(" = ");
    lemma_literal_one_line(d.category);
    lemma_literal_one_line(d.path);
    lemma_literal_one_line(d.commit);
    lemma_text_entry("tool"@, "todone"@);
    lemma_text_entry("category"@, d.category);
    lemma_text_entry("path"@, d.path);
    lemma_text_entry("commit"@, d.commit);
    let t0 = entry_text(es[0]);
    let t1 = entry_text(es[1]);
    assert(text::decimal(1) == seq!['1']);
    assert(one_line(t1));
    assert(t1[0] == 'v');
    assert(no_dash_lines(t0) && no_cr(t0));
    lemma_join_dashless(t0, t1);
    let a = t0 + "\n"@ + t1;
    lemma_join_dashless(a, entry_text(es[2]));
    let b = a + "\n"@ + entry_text(es[2]);
    lemma_join_dashless(b, entry_text(es[3]));
    let c = b + "\n"@ + entry_text(es[3]);
    lemma_join_dashless(c, entry_text(es[4]));
}

/// The frontmatter entries of a faithful draft are a TOML table.
proof fn lemma_entries_table(d: DraftView)
    requires
        is_literal(d.category),
        is_literal(d.path),
        is_literal(d.commit),
    ensures
        is_table(draft_entries(d)),
{
    reveal_strlit("tool");
    reveal_strlit("version");
    reveal_strlit("category");
    reveal_strlit("path");
    reveal_strlit("commit");
    reveal_strlit("todone");
    let es = draft_entries(d);
    assert(is_literal("todone"@));
    assert("tool"@.len() == 4 && "version"@.len() == 7 && "category"@.len() == 8 && "path"@.len()
        == 4 && "commit"@.len() == 6);
    assert("tool"@[0] == 't' && "path"@[0] == 'p');
    assert forall|k: int| 0 <= k < es.len() implies {
        let e = #[trigger] es[k];
        &&& e.key.len() > 0
        &&& forall|i: int| 0 <= i < e.key.len() ==> is_key_char(#[trigger] e.key[i])
        &&& match e.value {
            FieldView::Text(s) => is_literal(s),
            FieldView::Integer(n) => 0 <= n <= i64::MAX,
            _ => false,
        }
    } by {
        assert(k == 0 || k == 1 || k == 2 || k == 3 || k == 4);
    }
}

/// The ends of a trimmed text that is not empty are no whitespace.
proof fn lemma_trimmed_ends(s: Seq<char>)
    requires
        text::trim_both(s) == s,
        s.len() > 0,
    ensures
        !text::is_white(s[0]),
        !text::is_white(s.last()),
{
    let r = text::lemma_trim_both_shape(s);
    assert(s.subrange(r.0, r.1).len() == r.1 - r.0);
    assert(r.0 == 0 && r.1 == s.len());
    assert(s.last() == s[r.1 - 1]);
}

/// A trimmed text between whitespace comes back from trimming.
proof fn lemma_trim_padded(a: Seq<char>, s: Seq<char>, b: Seq<char>)
    requires
        text::trim_both(s) == s,
        s.len() > 0,
        text::is_blank(a),
        text::is_blank(b),
    ensures
        text::trim_both(a + s + b) == s,
{
    lemma_trimmed_ends(s);
    let t = a + s + b;
    assert forall|k: int| 0 <= k < a.len() implies text::is_white(#[trigger] t[k]) by {
        assert(text::is_white(a[k]));
    }
    text::lemma_trim_left(t, a.len() as int);
    let u = t.skip(a.len() as int);
    assert(u == s + b);
    assert forall|k: int| s.len() <= k < u.len() implies text::is_white(#[trigger] u[k]) by {
        assert(text::is_white(b[k - s.len()]));
    }
    text::lemma_trim_right(u, s.len() as int);
    assert(u.take(s.len() as int) == s);
}

/// A rendered file with line ends normalized.
proof fn lemma_clean_text(d: DraftView, s: SnippetView)
    requires
        is_tidy(d),
    ensures
        text::unix_text(draft_text(d, s)) == "---\n"@ + (table_text(draft_entries(d))
            + "\n---\n"@ + clean_body(d, s)),
{
    let open = "---\n"@;
    let close = "\n---\n"@;
    let e = table_text(draft_entries(d));
    let b = context_section(s);
    let c = description_section(d);
    let a = open + e + close + title_line(d);
    lemma_frontmatter_lines(d);
    lemma_head_clean(d);
    lemma_tail_clean(d);
    lemma_context_ends(s);
    assert(draft_text(d, s) == a + b + c);
    text::lemma_unix_concat(a, b);
    text::lemma_unix_concat(a + b, c);
    text::lemma_unix_fixed(a);
    text::lemma_unix_fixed(c);
}

/// The frontmatter ends at the first `---` line behind it.
proof fn lemma_frontmatter_end(e: Seq<char>, body: Seq<char>)
    requires
        no_dash_lines(e),
    ensures
        text::find_from(e + "\n---\n"@ + body, "\n---\n"@, 0) == Some(e.len() as int),
{
    reveal_strlit("\n---\n");
    let close = "\n---\n"@;
    let rest = e + close + body;
    assert(rest.subrange(e.len() as int, (e.len() + close.len()) as int) == close);
    assert forall|k: int| 0 <= k < e.len() implies !text::occurs_at(rest, close, k) by {
        if text::occurs_at(rest, close, k) {
            let part = rest.subrange(k, k + close.len());
            assert(part[0] == '\n' && part[1] == '-');
            assert(e[k] == '\n');
            assert(rest[k + 1] == e[k + 1]);
        }
    }
    text::lemma_find_is(rest, close, 0, e.len() as int);
}

/// The parts of a rendered file.
proof fn lemma_split_rendered(d: DraftView, s: SnippetView)
    requires
        is_tidy(d),
    ensures
        split_file(draft_text(d, s)) == Some((table_text(draft_entries(d)), clean_body(d, s))),
{
    reveal_strlit("---\n");
    let open = "---\n"@;
    let close = "\n---\n"@;
    let e = table_text(draft_entries(d));
    let body = clean_body(d, s);
    lemma_clean_text(d, s);
    lemma_frontmatter_lines(d);
    lemma_frontmatter_end(e, body);
    let clean = text::unix_text(draft_text(d, s));
    let rest = e + close + body;
    assert(clean[0] == open[0]);
    text::lemma_trim_left(clean, 0);
    assert(clean.skip(0) == clean);
    assert(clean.subrange(0, open.len() as int) == open);
    assert(clean.skip(open.len() as int) == rest);
    assert(rest.take(e.len() as int) == e);
    assert(rest.skip((e.len() + close.len()) as int) == body);
}

/// A rendered file up to the end of its title line has no `\r\n`.
proof fn lemma_head_clean(d: DraftView)
    requires
        no_cr(table_text(draft_entries(d))),
        text::trim_both(d.title) == d.title,
        d.title.len() > 0,
        !d.title.contains('\n'),
    ensures
        text::no_crlf("---\n"@ + table_text(draft_entries(d)) + "\n---\n"@ + title_line(d)),
        ("---\n"@ + table_text(draft_entries(d)) + "\n---\n"@ + title_line(d)).last() == '\n',
{
    reveal_strlit("---\n");
    reveal_strlit("\n---\n");
    reveal_strlit("# Title: ");
    reveal_strlit("\n");
    lemma_trimmed_ends(d.title);
    let e = table_text(draft_entries(d));
    let x = "---\n"@ + e + "\n---\n"@ + "# Title: "@;
    assert forall|k: int| 0 <= k < x.len() implies #[trigger] x[k] != '\r' by {
        let n = k - "---\n"@.len();
        if 0 <= n < e.len() {
            assert(e[n] != '\r');
        }
    }
    assert(text::no_crlf(x));
    assert forall|i: int| 0 <= i < d.title.len() - 1 && #[trigger] d.title[i] == '\r' implies d.title[i
        + 1] != '\n' by {
        assert(d.title.contains(d.title[i + 1]));
    }
    text::lemma_no_crlf_concat(x, d.title);
    let y = x + d.title;
    assert(y.last() == d.title.last());
    text::lemma_no_crlf_concat(y, "\n"@);
    assert(y + "\n"@ == "---\n"@ + e + "\n---\n"@ + title_line(d));
}

/// The description section of a rendered file has no `\r\n`.
proof fn lemma_tail_clean(d: DraftView)
    requires
        text::trim_both(d.description) == d.description,
        d.description.len() > 0,
        text::no_crlf(d.description),
    ensures
        text::no_crlf(description_section(d)),
        description_section(d)[0] == '#',
{
    reveal_strlit("## Description");
    reveal_strlit("\n");
    lemma_trimmed_ends(d.description);
    let x = "## Description"@ + "\n"@;
    assert(text::no_crlf(x));
    text::lemma_no_crlf_concat(x, d.description);
    let y = x + d.description;
    assert(y.last() == d.description.last());
    text::lemma_no_crlf_concat(y, "\n"@);
}

/// The context section starts and ends with a line feed.
proof fn lemma_context_ends(s: SnippetView)
    ensures
        context_section(s).len() > 0,
        context_section(s)[0] == '\n',
        context_section(s).last() == '\n',
{
    reveal_strlit("\n## Context\n```");
    reveal_strlit("\n");
    reveal_strlit("\n```\n\n");
}

/// The title and description of a rendered file.
proof fn lemma_body(d: DraftView, s: SnippetView)
    requires
        is_faithful(d, s),
    ensures
        title_of(clean_body(d, s)) == Some(d.title),
        description_of(clean_body(d, s)) == Some(d.description),
{
    lemma_title(d, text::unix_text(context_section(s)) + description_section(d));
    assert(title_line(d) + (text::unix_text(context_section(s)) + description_section(d))
        == clean_body(d, s));
    lemma_description(d, s);
}

proof fn lemma_title(d: DraftView, rest: Seq<char>)
    requires
        text::trim_both(d.title) == d.title,
        d.title.len() > 0,
        !d.title.contains('\n'),
    ensures
        title_of(title_line(d) + rest) == Some(d.title),
{
    reveal_strlit("# Title: ");
    reveal_strlit("# Title:");
    reveal_strlit("\n");
    lemma_trimmed_ends(d.title);
    let body = title_line(d) + rest;
    let raw = "# Title: "@ + d.title;
    let n = raw.len() as int;
    assert forall|k: int| 0 <= k < n implies body[k] != '\n' by {
        assert(body[k] == raw[k]);
        if k >= "# Title: "@.len() {
            assert(d.title.contains(d.title[k - "# Title: "@.len()]));
        }
    }
    assert(body[n] == '\n');
    text::lemma_newline_is(body, 0, n);
    let ls = text::lines_of(body);
    assert(body.subrange(0, n) == raw);
    assert(raw.last() == d.title.last());
    assert(ls[0] == text::ended_line(raw));
    assert(ls[0].text == raw);
    assert(raw.subrange(0, "# Title:"@.len() as int) == "# Title:"@);
    let after = raw.skip("# Title:"@.len() as int);
    assert(after == seq![' '] + d.title + Seq::<char>::empty());
    lemma_trim_padded(seq![' '], d.title, Seq::empty());
    assert(title_from(ls, 0) == Some(after));
}

/// The context section with line ends normalized.
proof fn lemma_context_shape(s: SnippetView)
    ensures
        text::unix_text(context_section(s)) == "\n## Context\n```"@ + fenced(s) + "```\n\n"@,
        fenced(s).len() > 0,
        fenced(s).last() == '\n',
{
    reveal_strlit("\n## Context\n```");
    reveal_strlit("\n");
    reveal_strlit("\n```\n\n");
    reveal_strlit("```\n\n");
    let a = "\n## Context\n```"@;
    let b = s.language + "\n"@ + drop_newlines(s.text) + "\n"@;
    let c = "```\n\n"@;
    assert(context_section(s) == a + b + c);
    assert(b.last() == '\n');
    text::lemma_unix_concat(a, b);
    text::lemma_unix_concat(a + b, c);
    text::lemma_unix_fixed(a);
    text::lemma_unix_fixed(c);
    text::lemma_unix_last(b);
}

proof fn lemma_description(d: DraftView, s: SnippetView)
    requires
        is_faithful(d, s),
    ensures
        description_of(clean_body(d, s)) == Some(d.description),
{
    reveal_strlit("\n## Description");
    reveal_strlit("## Description");
    reveal_strlit("\n## Context\n```");
    reveal_strlit("\n```\n\n## Description");
    reveal_strlit("```\n\n");
    reveal_strlit("\n");
    let heading = "\n## Description"@;
    let opening = "\n## Context\n```"@;
    let ending = "\n```\n\n## Description"@;
    let b = "\n"@ + clean_body(d, s);
    let lead = "\n"@ + title_line(d);
    let n = lead.len() as int;
    let inner = fenced(s);
    let tail = "```\n\n"@ + description_section(d);
    lemma_context_shape(s);
    assert(b == lead + opening + inner + tail);
    lemma_before_context(d, inner + tail);
    assert(b == lead + (opening + (inner + tail)));
    text::lemma_find_is(b, opening, 0, n);
    text::lemma_find(b, heading, 0);
    // The end of the context section.
    let q = n + opening.len() + inner.len() - 1;
    assert(b[q] == inner.last());
    assert(b.subrange(q, q + ending.len()) == ending);
    assert forall|k: int| n + opening.len() <= k < q implies !text::occurs_at(b, ending, k) by {
        if text::occurs_at(b, ending, k) {
            lemma_ending_apart(b, k, q);
            let j = k - n - opening.len();
            assert(inner.subrange(j, j + ending.len()) == b.subrange(k, k + ending.len()));
            assert(text::occurs_at(inner, ending, j));
        }
    }
    text::lemma_find_is(b, ending, n + opening.len(), q);
    assert(heading_start(b) == q + 4);
    // The heading behind it.
    assert(b[q + 4] == '\n' && b[q + 5] == '\n');
    assert(!text::occurs_at(b, heading, q + 4)) by {
        if text::occurs_at(b, heading, q + 4) {
            assert(b.subrange(q + 4, q + 4 + heading.len())[1] == heading[1]);
        }
    }
    assert(b.subrange(q + 5, q + 5 + heading.len()) == heading);
    text::lemma_find_is(b, heading, q + 4, q + 5);
    let after = b.skip(q + 5 + heading.len());
    assert(after == "\n"@ + d.description + "\n"@);
    assert(text::is_blank("\n"@));
    lemma_trim_padded("\n"@, d.description, "\n"@);
}

/// Two ends of a context section do not overlap.
proof fn lemma_ending_apart(b: Seq<char>, k: int, q: int)
    requires
        k < q,
        text::occurs_at(b, "\n```\n\n## Description"@, k),
        text::occurs_at(b, "\n```\n\n## Description"@, q),
    ensures
        k + "\n```\n\n## Description"@.len() <= q,
{
    reveal_strlit("\n```\n\n## Description");
    let ending = "\n```\n\n## Description"@;
    let x = b.subrange(k, k + ending.len());
    let y = b.subrange(q, q + ending.len());
    let m = q - k;
    if m < ending.len() {
        assert(x[m] == y[0]);
        assert(m == 4 || m == 5);
        assert(x[m + 1] == y[1]);
    }
}

/// Neither a heading nor another context section stands before the context
/// section of a rendered file.
proof fn lemma_before_context(d: DraftView, rest: Seq<char>)
    requires
        !d.title.contains('\n'),
    ensures
        ({
            let lead = "\n"@ + title_line(d);
            let b = lead + ("\n## Context\n```"@ + rest);
            &&& text::occurs_at(b, "\n## Context\n```"@, lead.len() as int)
            &&& forall|k: int|
                0 <= k < lead.len() ==> !text::occurs_at(b, "\n## Context\n```"@, k)
            &&& forall|k: int|
                0 <= k <= lead.len() ==> !text::occurs_at(b, "\n## Description"@, k)
        }),
{
    reveal_strlit("\n## Description");
    reveal_strlit("\n## Context\n```");
    reveal_strlit("# Title: ");
    reveal_strlit("\n");
    let heading = "\n## Description"@;
    let opening = "\n## Context\n```"@;
    let lead = "\n"@ + title_line(d);
    let b = lead + (opening + rest);
    let n = lead.len() as int;
    assert(b.subrange(n, n + opening.len()) == opening);
    assert forall|k: int| 0 < k < n - 1 implies b[k] != '\n' by {
        let m = "# Title: "@.len();
        if k <= m {
            assert(b[k] == "# Title: "@[k - 1]);
        } else {
            assert(b[k] == d.title[k - 1 - m]);
            assert(d.title.contains(d.title[k - 1 - m]));
        }
    }
    assert(b[2] == ' ' && b[n] == '\n');
    assert forall|k: int| 0 <= k < n implies !text::occurs_at(b, opening, k) by {
        if text::occurs_at(b, opening, k) {
            let part = b.subrange(k, k + opening.len());
            assert(part[0] == b[k] && part[1] == b[k + 1] && part[2] == b[k + 2]);
        }
    }
    assert forall|k: int| 0 <= k <= n implies !text::occurs_at(b, heading, k) by {
        if text::occurs_at(b, heading, k) {
            let part = b.subrange(k, k + heading.len());
            assert(part[0] == b[k] && part[1] == b[k + 1] && part[2] == b[k + 2]);
            if k == n {
                assert(part[4] == opening[4]);
            }
        }
    }
}

/// Whether the title was left at the template placeholder.
pub fn is_placeholder_title(title: &str) -> (r: bool)
    ensures
        r == (text::trim_both(title@) == TITLE_PLACEHOLDER@),
{
    let trimmed = text::trim_chars(&text::chars_of(title));
    text::same_text(text::string_of(&trimmed).as_str(), TITLE_PLACEHOLDER)
}

} // verus!
