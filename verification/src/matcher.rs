//! Category matching for comment text.
//!
//! A [`MatchConfig`] describes which marker categories a comment must
//! contain for the scanner to report it, plus the strictness of the match
//! (case sensitivity, whether a space must precede the category, and
//! whether the category must be followed by a colon), or a custom pattern
//! with placeholders. The built-in rule asks that the category be the first
//! content of a comment line, so a comment that merely mentions a marker is
//! not a marker comment.
//!
//! Matching runs against the *text of a comment*, including its marker (`//`,
//! `#`, ...). A space requirement therefore also governs `//TODO` versus
//! `// TODO`.

use crate::text;
use regex::Regex;
use vstd::prelude::*;
use vstd::string::*;

verus! {

// ---------------------------------------------------------------------------
// Regular expressions
// ---------------------------------------------------------------------------

/// A compiled regular expression of the `regex` crate.
#[verifier::external_type_specification]
#[verifier::external_body]
pub struct ExRegex(regex::Regex);

/// The pattern a regular expression was compiled from.
pub uninterp spec fn pattern_of(re: Regex) -> Seq<char>;

/// Why a pattern does not compile, or `None` when it does.
pub uninterp spec fn regex_error(pattern: Seq<char>) -> Option<Seq<char>>;

/// Whether the regular expression `pattern` matches anywhere in `text`.
pub uninterp spec fn regex_matches(pattern: Seq<char>, text: Seq<char>) -> bool;

/// Whether `c` has a meaning of its own in a regular expression.
pub open spec fn is_meta(c: char) -> bool {
    c == '\\' || c == '.' || c == '+' || c == '*' || c == '?' || c == '(' || c == ')' || c == '|'
        || c == '[' || c == ']' || c == '{' || c == '}' || c == '^' || c == '$' || c == '#' || c
        == '&' || c == '-' || c == '~'
}

/// A text as a pattern that matches exactly that text: a backslash stands
/// before each meta character.
pub open spec fn escaped(s: Seq<char>) -> Seq<char>
    decreases s.len(),
{
    if s.len() == 0 {
        Seq::empty()
    } else if is_meta(s.last()) {
        escaped(s.drop_last()).push('\\').push(s.last())
    } else {
        escaped(s.drop_last()).push(s.last())
    }
}

/// Escapes the meta characters of a text; specifies `regex::escape`, which
/// copies the text and puts a backslash before each meta character.
pub assume_specification[ regex::escape ](pattern: &str) -> (r: String)
    ensures
        r@ == escaped(pattern@),
;

/// Compiles a pattern; calls `regex::Regex::new`. The outcome depends on the
/// pattern alone: the expression compiled from it, or the message of the
/// error. The pattern of one category or of several is well formed, since
/// the categories are escaped, and where they are short it stays far below
/// the size that the crate allows a compiled expression (ten megabytes): it
/// compiles.
#[verifier::external_body]
fn compile_regex(pattern: &str) -> (r: Result<Regex, String>)
    ensures
        match r {
            Ok(re) => regex_error(pattern@) is None && pattern_of(re) == pattern@,
            Err(message) => regex_error(pattern@) == Some(message@),
        },
        forall|rule: MatchRule, category: Seq<char>|
            #[trigger] marker_pattern(rule, category) == pattern@ && escaped(category).len()
                <= SHORT_ALTERNATION ==> r is Ok,
        forall|rule: MatchRule, categories: Seq<Seq<char>>|
            #[trigger] any_marker_pattern(rule, categories) == pattern@ && alternation(
                categories,
            ).len() <= SHORT_ALTERNATION ==> r is Ok,
{
    Regex::new(pattern).map_err(|e| e.to_string())
}

/// Searches a text; calls `regex::Regex::is_match`.
///
/// The outcome depends on the pattern and the text alone. The expression of
/// several categories, which differs from that of one in an alternation in
/// its place, matches exactly the texts that the expression of one of them
/// matches. For marker categories the outcome is stated in full where the
/// category is plain (see [`is_plain`]): the expression of one category
/// matches exactly the texts that hold a marker of it, and that of several
/// categories exactly the texts that hold a marker of one of them.
#[verifier::external_body]
fn is_match(re: &Regex, text: &str) -> (r: bool)
    ensures
        r == regex_matches(pattern_of(*re), text@),
        forall|rule: MatchRule, category: Seq<char>|
            #[trigger] marker_pattern(rule, category) == pattern_of(*re) && is_plain(
                rule,
                category,
                text@,
            ) ==> r == has_marker(rule, category, text@),
        forall|rule: MatchRule, categories: Seq<Seq<char>>|
            #[trigger] any_marker_pattern(rule, categories) == pattern_of(*re)
                && categories.len() > 0 ==> r == one_matches(rule, categories, text@),
        forall|rule: MatchRule, categories: Seq<Seq<char>>|
            #[trigger] any_marker_pattern(rule, categories) == pattern_of(*re)
                && categories.len() > 0 && all_plain(rule, categories, text@) ==> r
                == has_any_marker(rule, categories, text@),
{
    re.is_match(text)
}

// ---------------------------------------------------------------------------
// Markers
// ---------------------------------------------------------------------------

/// How strictly a marker must be written.
pub struct MatchRule {
    pub case_sensitive: bool,
    pub require_space_before: bool,
    pub require_colon: bool,
}

/// Whether `c` is an ASCII character.
pub open spec fn is_ascii(c: char) -> bool {
    c as u32 <= 0x7F
}

/// Whether every character of a text is an ASCII character.
pub open spec fn all_ascii(s: Seq<char>) -> bool {
    forall|i: int| 0 <= i < s.len() ==> is_ascii(#[trigger] s[i])
}

/// The lower-case form of an ASCII letter; other characters as they are.
pub open spec fn ascii_lower(c: char) -> char {
    if 'A' as u32 <= c as u32 <= 'Z' as u32 {
        (c as u32 + 32) as char
    } else {
        c
    }
}

/// Whether `c` is an ASCII letter, a digit or an underscore.
pub open spec fn is_ascii_word(c: char) -> bool {
    let n = c as u32;
    ||| 'a' as u32 <= n <= 'z' as u32
    ||| 'A' as u32 <= n <= 'Z' as u32
    ||| '0' as u32 <= n <= '9' as u32
    ||| c == '_'
}

/// Whether a character spells the ASCII character `want` when case does not
/// matter: besides its two cases, the Kelvin sign spells `k` and the long s
/// spells `s`.
pub open spec fn spells(got: char, want: char) -> bool {
    ||| ascii_lower(got) == ascii_lower(want)
    ||| got as u32 == 0x212A && ascii_lower(want) == 'k'
    ||| got as u32 == 0x17F && ascii_lower(want) == 's'
}

/// Whether a text spells a category.
pub open spec fn is_spelled(rule: MatchRule, got: Seq<char>, category: Seq<char>) -> bool {
    if rule.case_sensitive {
        got == category
    } else {
        got.len() == category.len() && forall|k: int|
            0 <= k < got.len() ==> spells(#[trigger] got[k], category[k])
    }
}

/// Whether a line starts at position `i`.
pub open spec fn starts_line(text: Seq<char>, i: int) -> bool {
    i <= 0 || text[i - 1] == '\n'
}

/// Whether nothing but comment decoration (no letter, digit or underscore)
/// stands before position `i` on its line.
pub open spec fn is_lead(text: Seq<char>, i: int) -> bool
    decreases i,
{
    starts_line(text, i) || (!is_ascii_word(text[i - 1]) && is_lead(text, i - 1))
}

/// Whether a marker may start at position `i`: at the start of a line or
/// behind its decoration, there, as the rule has it, after whitespace or with
/// a word character.
pub open spec fn opens_at(rule: MatchRule, text: Seq<char>, i: int) -> bool {
    is_lead(text, i) && (starts_line(text, i) || if rule.require_space_before {
        text::is_white(text[i - 1])
    } else {
        i < text.len() && is_ascii_word(text[i])
    })
}

/// Whether a colon stands at position `i` or after whitespace from there.
pub open spec fn colon_from(text: Seq<char>, i: int) -> bool {
    exists|k: int|
        i <= k < text.len() && #[trigger] text[k] == ':' && text::is_blank(text.subrange(i, k))
}

/// Whether a category may end at position `i`: before a colon, an exclamation
/// mark, an opening parenthesis or whitespace, or at the end; as the rule has
/// it, only before a colon.
pub open spec fn closes_at(rule: MatchRule, text: Seq<char>, i: int) -> bool {
    if rule.require_colon {
        colon_from(text, i)
    } else {
        i == text.len() || text[i] == ':' || text[i] == '!' || text[i] == '(' || text::is_white(
            text[i],
        )
    }
}

/// Whether a marker of `category` starts at position `i`.
pub open spec fn marker_at(rule: MatchRule, category: Seq<char>, text: Seq<char>, i: int) -> bool {
    &&& 0 <= i
    &&& i + category.len() <= text.len()
    &&& is_spelled(rule, text.subrange(i, i + category.len()), category)
    &&& opens_at(rule, text, i)
    &&& closes_at(rule, text, i + category.len())
}

/// Whether a text holds a marker of `category`.
pub open spec fn has_marker(rule: MatchRule, category: Seq<char>, text: Seq<char>) -> bool {
    exists|i: int| marker_at(rule, category, text, i)
}

/// Whether a text holds a marker of one of `categories`.
pub open spec fn has_any_marker(
    rule: MatchRule,
    categories: Seq<Seq<char>>,
    text: Seq<char>,
) -> bool {
    exists|k: int| 0 <= k < categories.len() && has_marker(rule, #[trigger] categories[k], text)
}

/// Whether no character other than an ASCII one stands in the decoration of
/// a line of `text`, nor directly behind it.
pub open spec fn has_ascii_leads(text: Seq<char>) -> bool {
    forall|i: int| 0 <= i < text.len() && !is_ascii(#[trigger] text[i]) ==> !is_lead(text, i)
}

/// Whether the markers of `category` in `text` are told by ASCII rules alone:
/// case matters or the category is ASCII, and the lines of the text start
/// with ASCII characters up to the first word.
pub open spec fn is_plain(rule: MatchRule, category: Seq<char>, text: Seq<char>) -> bool {
    (rule.case_sensitive || all_ascii(category)) && has_ascii_leads(text)
}

/// Whether every one of `categories` is plain.
pub open spec fn all_plain(rule: MatchRule, categories: Seq<Seq<char>>, text: Seq<char>) -> bool {
    forall|k: int| 0 <= k < categories.len() ==> is_plain(rule, #[trigger] categories[k], text)
}

/// The first of `categories`, from index `k` on, of which `text` holds a
/// marker.
pub open spec fn first_marked(
    rule: MatchRule,
    categories: Seq<Seq<char>>,
    text: Seq<char>,
    k: int,
) -> Option<Seq<char>>
    decreases categories.len() - k,
{
    if k < 0 || k >= categories.len() {
        None
    } else if has_marker(rule, categories[k], text) {
        Some(categories[k])
    } else {
        first_marked(rule, categories, text, k + 1)
    }
}

// ---------------------------------------------------------------------------
// Patterns
// ---------------------------------------------------------------------------

/// The flags of a marker pattern.
pub open spec fn flags_text(case_sensitive: bool) -> Seq<char> {
    if case_sensitive {
        "(?m)"@
    } else {
        "(?m)(?i)"@
    }
}

/// What stands before the category in a marker pattern: the start of a line
/// and its decoration.
pub open spec fn prefix_text(rule: MatchRule) -> Seq<char> {
    if rule.require_space_before {
        r"^(?:\W*\s)?"@
    } else {
        r"^\W*(?:\b|^)"@
    }
}

/// What stands after the category in a marker pattern.
pub open spec fn suffix_text(rule: MatchRule) -> Seq<char> {
    if rule.require_colon {
        r"\s*:"@
    } else {
        r"(?::|!|\(|\s|$)"@
    }
}

/// The pattern that finds markers of one category.
pub open spec fn marker_pattern(rule: MatchRule, category: Seq<char>) -> Seq<char> {
    flags_text(rule.case_sensitive) + prefix_text(rule) + escaped(category) + suffix_text(rule)
}

/// The escaped categories with a bar between them.
pub open spec fn alternation(categories: Seq<Seq<char>>) -> Seq<char>
    decreases categories.len(),
{
    if categories.len() == 0 {
        Seq::empty()
    } else if categories.len() == 1 {
        escaped(categories[0])
    } else {
        alternation(categories.drop_last()).push('|') + escaped(categories.last())
    }
}

/// The pattern that finds markers of any of several categories.
pub open spec fn any_marker_pattern(rule: MatchRule, categories: Seq<Seq<char>>) -> Seq<char> {
    flags_text(rule.case_sensitive) + prefix_text(rule) + "(?:"@ + alternation(categories) + ")"@
        + suffix_text(rule)
}

/// The length of escaped categories, with the bars between them, up to which
/// their patterns count as short.
pub const SHORT_ALTERNATION: usize = 1000;

/// Whether the pattern of one of `categories` matches `text`.
pub open spec fn one_matches(
    rule: MatchRule,
    categories: Seq<Seq<char>>,
    text: Seq<char>,
) -> bool {
    exists|k: int|
        0 <= k < categories.len() && regex_matches(
            marker_pattern(rule, #[trigger] categories[k]),
            text,
        )
}

/// The escaped form is at most twice as long.
pub proof fn lemma_escaped_len(s: Seq<char>)
    ensures
        escaped(s).len() <= 2 * s.len(),
    decreases s.len(),
{
    if s.len() > 0 {
        lemma_escaped_len(s.drop_last());
    }
}

/// Each escaped category is at most as long as all of them together.
pub proof fn lemma_alternation_len(categories: Seq<Seq<char>>, k: int)
    requires
        0 <= k < categories.len(),
    ensures
        escaped(categories[k]).len() <= alternation(categories).len(),
    decreases categories.len(),
{
    if categories.len() > 1 && k < categories.len() - 1 {
        lemma_alternation_len(categories.drop_last(), k);
    }
}

/// The position of the first `}` at or after `i`, or the end.
pub open spec fn brace_from(p: Seq<char>, i: int) -> int
    decreases p.len() - i,
{
    if i < 0 || i >= p.len() {
        p.len() as int
    } else if p[i] == '}' {
        i
    } else {
        brace_from(p, i + 1)
    }
}

/// A pattern that starts with `head`.
pub open spec fn with_head(
    head: Seq<char>,
    rest: Result<Seq<char>, Seq<char>>,
) -> Result<Seq<char>, Seq<char>> {
    match rest {
        Ok(tail) => Ok(head + tail),
        Err(name) => Err(name),
    }
}

/// The end of the escape sequence at `i`: a backslash, the character after it
/// and a braced group directly behind that.
pub open spec fn escape_end(p: Seq<char>, i: int) -> int {
    let c = brace_from(p, i + 2);
    if i + 2 < p.len() && p[i + 2] == '{' && c < p.len() {
        c + 1
    } else {
        i + 2
    }
}

/// Whether `c` is a decimal digit.
pub open spec fn is_digit_char(c: char) -> bool {
    '0' as u32 <= c as u32 <= '9' as u32
}

/// Whether `c` is a decimal digit.
fn is_digit(c: char) -> (r: bool)
    ensures
        r == is_digit_char(c),
{
    let n: u32 = c as u32;
    0x30 <= n && n <= 0x39
}

/// What a placeholder stands for, when it is one: `{comment}` for a run of
/// non-word characters, `{marker}` for the captured marker, `{content}` for
/// the captured rest of the line. A group that starts with a digit is a
/// repetition and stays as it is.
pub open spec fn placeholder(name: Seq<char>, marker: Seq<char>) -> Option<Seq<char>> {
    if name == "comment"@ {
        Some(r"\W+"@)
    } else if name == "marker"@ {
        Some("("@ + marker + ")"@)
    } else if name == "content"@ {
        Some("(.*)"@)
    } else if name.len() > 0 && is_digit_char(name[0]) {
        Some("{"@ + name + "}"@)
    } else {
        None
    }
}

/// A custom pattern from position `i` on with its placeholders filled in, or
/// the name of the first unknown placeholder.
pub open spec fn filled_from(p: Seq<char>, marker: Seq<char>, i: int) -> Result<
    Seq<char>,
    Seq<char>,
>
    decreases p.len() - i,
    via filled_from_decreases
{
    if i < 0 || i >= p.len() {
        Ok(Seq::empty())
    } else if p[i] == '\\' && i + 1 < p.len() {
        with_head(p.subrange(i, escape_end(p, i)), filled_from(p, marker, escape_end(p, i)))
    } else if p[i] == '{' && brace_from(p, i) < p.len() {
        let c = brace_from(p, i);
        match placeholder(p.subrange(i + 1, c), marker) {
            Some(text) => with_head(text, filled_from(p, marker, c + 1)),
            None => Err(p.subrange(i + 1, c)),
        }
    } else {
        with_head(seq![p[i]], filled_from(p, marker, i + 1))
    }
}

#[via_fn]
proof fn filled_from_decreases(p: Seq<char>, marker: Seq<char>, i: int) {
    lemma_brace_from(p, i);
    lemma_brace_from(p, i + 2);
}

/// A custom pattern with its placeholders filled in.
pub open spec fn filled(p: Seq<char>, marker: Seq<char>) -> Result<Seq<char>, Seq<char>> {
    filled_from(p, marker, 0)
}

/// Where [`brace_from`] stops.
pub proof fn lemma_brace_from(p: Seq<char>, i: int)
    ensures
        0 <= i <= p.len() ==> i <= brace_from(p, i) <= p.len(),
        0 <= i ==> brace_from(p, i) <= p.len(),
    decreases p.len() - i,
{
    if 0 <= i < p.len() && p[i] != '}' {
        lemma_brace_from(p, i + 1);
    }
}

/// The position of the first `}` at or after `i`, or the end.
fn find_brace(p: &Vec<char>, i: usize) -> (r: usize)
    requires
        i <= p.len(),
    ensures
        r == brace_from(p@, i as int),
        i <= r <= p.len(),
{
    let mut k: usize = i;
    while k < p.len() && p[k] != '}'
        invariant
            i <= k <= p.len(),
            brace_from(p@, i as int) == brace_from(p@, k as int),
        decreases p.len() - k,
    {
        k += 1;
    }
    k
}

/// The texts a placeholder stands for.
fn fill_placeholder(name: &Vec<char>, marker: &str) -> (r: Option<String>)
    ensures
        match r {
            Some(s) => placeholder(name@, marker@) == Some(s@),
            None => placeholder(name@, marker@) is None,
        },
{
    let word = text::string_of(name);
    if text::same_text(word.as_str(), "comment") {
        Some(r"\W+".to_owned())
    } else if text::same_text(word.as_str(), "marker") {
        let mut s = "(".to_owned();
        s.append(marker);
        s.append(")");
        Some(s)
    } else if text::same_text(word.as_str(), "content") {
        Some("(.*)".to_owned())
    } else if name.len() > 0 && is_digit(name[0]) {
        let mut s = "{".to_owned();
        s.append(word.as_str());
        s.append("}");
        Some(s)
    } else {
        None
    }
}

/// Fills in the placeholders of a custom pattern.
///
/// # Errors
///
/// Returns the name of the first unknown placeholder.
pub fn fill_pattern(pattern: &str, marker: &str) -> (r: Result<String, String>)
    ensures
        match r {
            Ok(s) => filled(pattern@, marker@) == Ok::<Seq<char>, Seq<char>>(s@),
            Err(name) => filled(pattern@, marker@) == Err::<Seq<char>, Seq<char>>(name@),
        },
{
    let p = text::chars_of(pattern);
    let mut out = String::new();
    let mut i: usize = 0;
    proof {
        lemma_with_head_empty(filled(p@, marker@));
    }
    while i < p.len()
        invariant
            i <= p.len(),
            filled(p@, marker@) == with_head(out@, filled_from(p@, marker@, i as int)),
            p@ == pattern@,
        decreases p.len() - i,
    {
        let ghost done = out@;
        proof {
            lemma_brace_from(p@, i as int);
            lemma_brace_from(p@, i + 2);
        }
        if p[i] == '\\' && i + 1 < p.len() {
            let mut end: usize = i + 2;
            if i + 2 < p.len() && p[i + 2] == '{' {
                let c: usize = find_brace(&p, i + 2);
                if c < p.len() {
                    end = c + 1;
                }
            }
            let part = text::string_of(&text::slice_of(&p, i, end));
            out.append(part.as_str());
            proof {
                lemma_with_head(done, part@, filled_from(p@, marker@, end as int));
            }
            i = end;
        } else {
            let c: usize = find_brace(&p, i);
            if p[i] == '{' && c < p.len() {
                let name = text::slice_of(&p, i + 1, c);
                match fill_placeholder(&name, marker) {
                    Some(text) => {
                        out.append(text.as_str());
                        proof {
                            lemma_with_head(done, text@, filled_from(p@, marker@, c + 1));
                        }
                        i = c + 1;
                    },
                    None => {
                        return Err(text::string_of(&name));
                    },
                }
            } else {
                out.push(p[i]);
                proof {
                    assert(out@ == done + seq![p@[i as int]]);
                    lemma_with_head(done, seq![p@[i as int]], filled_from(p@, marker@, i + 1));
                }
                i += 1;
            }
        }
    }
    assert(out@ + Seq::<char>::empty() == out@);
    Ok(out)
}

proof fn lemma_with_head(a: Seq<char>, b: Seq<char>, rest: Result<Seq<char>, Seq<char>>)
    ensures
        with_head(a, with_head(b, rest)) == with_head(a + b, rest),
{
    if let Ok(tail) = rest {
        assert(a + (b + tail) == (a + b) + tail);
    }
}

proof fn lemma_with_head_empty(rest: Result<Seq<char>, Seq<char>>)
    ensures
        with_head(Seq::empty(), rest) == rest,
{
    if let Ok(tail) = rest {
        assert(Seq::<char>::empty() + tail == tail);
    }
}

// ---------------------------------------------------------------------------
// Configuration
// ---------------------------------------------------------------------------

/// The default categories: `TODO` and `FIXME`.
pub fn default_categories() -> (r: Vec<String>)
    ensures
        text::texts(r@) == seq!["TODO"@, "FIXME"@],
{
    let r = vec!["TODO".to_owned(), "FIXME".to_owned()];
    assert(text::texts(r@) == seq!["TODO"@, "FIXME"@]);
    r
}

/// The mathematical content of a [`MatchConfig`].
#[verifier::ext_equal]
pub struct MatchSettings {
    pub categories: Seq<Seq<char>>,
    pub rule: MatchRule,
    pub pattern: Option<Seq<char>>,
}

/// Configuration for which comments count as marker comments.
#[derive(Debug, PartialEq, Eq)]
pub struct MatchConfig {
    /// Category names to look for, e.g. `["TODO", "FIXME"]`. At least one
    /// non-empty entry is required; categories are tested in order.
    pub categories: Vec<String>,
    /// If `false` (default), categories match case-insensitively.
    pub case_sensitive: bool,
    /// If `true` (default), the category must be preceded by whitespace (or
    /// the start of the comment), so `//TODO` does not match but
    /// `// TODO` does.
    pub require_space_before: bool,
    /// If `true`, the category must be followed by a colon
    /// (`// TODO: x`), not just whitespace.
    pub require_colon: bool,
    /// A custom comment pattern with placeholders; `None` (default) uses the
    /// built-in rule.
    pub pattern: Option<String>,
}

/// The text of an optional string.
pub open spec fn text_option(s: Option<String>) -> Option<Seq<char>> {
    match s {
        Some(t) => Some(t@),
        None => None,
    }
}

impl View for MatchConfig {
    type V = MatchSettings;

    open spec fn view(&self) -> MatchSettings {
        MatchSettings {
            categories: text::texts(self.categories@),
            rule: MatchRule {
                case_sensitive: self.case_sensitive,
                require_space_before: self.require_space_before,
                require_colon: self.require_colon,
            },
            pattern: text_option(self.pattern),
        }
    }
}

impl Clone for MatchConfig {
    fn clone(&self) -> (r: Self)
        ensures
            r@ == self@,
    {
        MatchConfig {
            categories: text::clone_strings(&self.categories),
            case_sensitive: self.case_sensitive,
            require_space_before: self.require_space_before,
            require_colon: self.require_colon,
            pattern: match &self.pattern {
                Some(p) => Some(p.clone()),
                None => None,
            },
        }
    }
}

/// The built-in rule: case does not matter, whitespace must precede the
/// category, a colon is not required.
pub open spec fn default_rule() -> MatchRule {
    MatchRule { case_sensitive: false, require_space_before: true, require_colon: false }
}

/// The built-in settings.
pub open spec fn default_settings() -> MatchSettings {
    MatchSettings {
        categories: seq!["TODO"@, "FIXME"@],
        rule: default_rule(),
        pattern: None,
    }
}

impl Default for MatchConfig {
    fn default() -> (r: Self)
        ensures
            r@ == default_settings(),
    {
        MatchConfig {
            categories: default_categories(),
            case_sensitive: false,
            require_space_before: true,
            require_colon: false,
            pattern: None,
        }
    }
}

/// Errors produced while compiling a [`MatchConfig`].
#[derive(Debug, PartialEq, Eq)]
pub enum MatchConfigError {
    /// The category list is empty.
    NoCategories,
    /// A category entry is blank.
    EmptyCategory,
    /// The custom pattern holds a placeholder of an unknown name.
    UnknownPlaceholder(String),
    /// A generated regular expression failed to compile.
    Regex(String),
}

impl MatchConfigError {
    /// The text of [`Self::message`].
    pub open spec fn text(self) -> Seq<char> {
        match self {
            MatchConfigError::NoCategories => "at least one category is required"@,
            MatchConfigError::EmptyCategory => "categories must not be empty"@,
            MatchConfigError::UnknownPlaceholder(name) => "unknown placeholder {"@ + name@ + "}"@,
            MatchConfigError::Regex(detail) => "failed to compile category regex: "@ + detail@,
        }
    }

    /// A human-readable description of the error.
    pub fn message(&self) -> (r: String)
        ensures
            r@ == self.text(),
    {
        match self {
            MatchConfigError::NoCategories => "at least one category is required".to_owned(),
            MatchConfigError::EmptyCategory => "categories must not be empty".to_owned(),
            MatchConfigError::UnknownPlaceholder(name) => {
                let mut s = "unknown placeholder {".to_owned();
                s.append(name.as_str());
                s.append("}");
                s
            },
            MatchConfigError::Regex(detail) => {
                let mut s = "failed to compile category regex: ".to_owned();
                s.append(detail.as_str());
                s
            },
        }
    }
}

/// The content of a [`Matcher`]: its categories and the pattern of each.
#[verifier::ext_equal]
pub struct MatcherView {
    pub categories: Seq<Seq<char>>,
    pub each: Seq<Seq<char>>,
}

/// The matcher of the built-in rule.
pub open spec fn rule_matcher(rule: MatchRule, categories: Seq<Seq<char>>) -> MatcherView {
    MatcherView {
        categories,
        each: Seq::new(categories.len(), |k: int| marker_pattern(rule, categories[k])),
    }
}

/// The pattern made of a custom pattern's filled-in text.
pub open spec fn custom_pattern(rule: MatchRule, p: Seq<char>, marker: Seq<char>) -> Seq<char> {
    match filled(p, marker) {
        Ok(s) => flags_text(rule.case_sensitive) + s,
        Err(_) => Seq::empty(),
    }
}

/// The matcher of a custom pattern.
pub open spec fn custom_matcher(
    rule: MatchRule,
    p: Seq<char>,
    categories: Seq<Seq<char>>,
) -> MatcherView {
    MatcherView {
        categories,
        each: Seq::new(
            categories.len(),
            |k: int| custom_pattern(rule, p, escaped(categories[k])),
        ),
    }
}

impl MatchSettings {
    /// Whether one of the categories is blank.
    pub open spec fn has_blank(self) -> bool {
        exists|k: int| 0 <= k < self.categories.len() && text::is_blank(#[trigger] self.categories[k])
    }

    /// The name of the first unknown placeholder in the custom pattern.
    pub open spec fn unknown(self) -> Option<Seq<char>> {
        match self.pattern {
            Some(p) => match filled(p, Seq::empty()) {
                Ok(_) => None,
                Err(name) => Some(name),
            },
            None => None,
        }
    }

    /// The matcher that the settings describe.
    pub open spec fn matcher(self) -> MatcherView {
        match self.pattern {
            Some(p) => custom_matcher(self.rule, p, self.categories),
            None => rule_matcher(self.rule, self.categories),
        }
    }

    /// The patterns that the settings stand for: that of each category and,
    /// for the built-in rule, that of all of them together.
    pub open spec fn patterns(self) -> Seq<Seq<char>> {
        match self.pattern {
            Some(_) => self.matcher().each,
            None => self.matcher().each.push(any_marker_pattern(self.rule, self.categories)),
        }
    }

    /// The error of the first pattern that does not compile.
    pub open spec fn regex_failure(self) -> Option<Seq<char>> {
        first_error(self.patterns(), 0)
    }

    /// Whether the settings are those of the built-in rule with at least one
    /// category, none blank, that are short together.
    pub open spec fn is_simple(self) -> bool {
        &&& self.pattern is None
        &&& self.categories.len() > 0
        &&& !self.has_blank()
        &&& alternation(self.categories).len() <= SHORT_ALTERNATION
    }

    /// The settings with one category in place of all.
    pub open spec fn only(self, category: Seq<char>) -> MatchSettings {
        MatchSettings { categories: seq![category], rule: self.rule, pattern: self.pattern }
    }

    /// Whether `e` is why the settings do not compile.
    pub open spec fn refused_with(self, e: MatchConfigError) -> bool {
        match e {
            MatchConfigError::NoCategories => self.categories.len() == 0,
            MatchConfigError::EmptyCategory => self.categories.len() > 0 && self.has_blank(),
            MatchConfigError::UnknownPlaceholder(name) => {
                &&& self.categories.len() > 0
                &&& !self.has_blank()
                &&& self.unknown() == Some(name@)
            },
            MatchConfigError::Regex(detail) => {
                &&& self.categories.len() > 0
                &&& !self.has_blank()
                &&& self.unknown() is None
                &&& self.regex_failure() == Some(detail@)
            },
        }
    }

    /// Whether the settings compile.
    pub open spec fn compiles(self) -> bool {
        &&& self.categories.len() > 0
        &&& !self.has_blank()
        &&& self.unknown() is None
        &&& self.regex_failure() is None
    }
}

/// The error of the first of `patterns`, from index `k` on, that does not
/// compile.
pub open spec fn first_error(patterns: Seq<Seq<char>>, k: int) -> Option<Seq<char>>
    decreases patterns.len() - k,
{
    if k < 0 || k >= patterns.len() {
        None
    } else if regex_error(patterns[k]) is Some {
        regex_error(patterns[k])
    } else {
        first_error(patterns, k + 1)
    }
}

/// Whether a placeholder is known does not depend on the marker.
proof fn lemma_unknown_independent(p: Seq<char>, a: Seq<char>, b: Seq<char>, i: int)
    ensures
        filled_from(p, a, i) is Err <==> filled_from(p, b, i) is Err,
        filled_from(p, a, i) is Err ==> filled_from(p, a, i) == filled_from(p, b, i),
    decreases p.len() - i,
{
    if 0 <= i < p.len() {
        lemma_brace_from(p, i);
        lemma_brace_from(p, i + 2);
        if p[i] == '\\' && i + 1 < p.len() {
            lemma_unknown_independent(p, a, b, escape_end(p, i));
        } else if p[i] == '{' && brace_from(p, i) < p.len() {
            lemma_unknown_independent(p, a, b, brace_from(p, i) + 1);
        } else {
            lemma_unknown_independent(p, a, b, i + 1);
        }
    }
}

impl MatchConfig {
    /// Compiles this configuration into a [`Matcher`].
    ///
    /// # Errors
    ///
    /// Returns [`MatchConfigError::NoCategories`] when the category list is
    /// empty, [`MatchConfigError::EmptyCategory`] when an entry is blank,
    /// [`MatchConfigError::UnknownPlaceholder`] when the custom pattern names
    /// an unknown placeholder, and [`MatchConfigError::Regex`] if a generated
    /// expression fails to compile.
    pub fn compile(&self) -> (r: Result<Matcher, MatchConfigError>)
        ensures
            match r {
                Ok(m) => self@.compiles() && m@ == self@.matcher(),
                Err(e) => !self@.compiles() && self@.refused_with(e),
            },
            self@.is_simple() ==> r is Ok,
    {
        if self.categories.len() == 0 {
            return Err(MatchConfigError::NoCategories);
        }
        if self.blank_category() {
            return Err(MatchConfigError::EmptyCategory);
        }
        if let Some(pattern) = &self.pattern {
            proof {
                lemma_unknown_independent(pattern@, Seq::empty(), ""@, 0);
            }
            if let Err(name) = fill_pattern(pattern.as_str(), "") {
                return Err(MatchConfigError::UnknownPlaceholder(name));
            }
        }
        let ghost all = self@.patterns();
        let ghost n = self@.categories.len();
        let mut alternatives = String::new();
        let mut per_category: Vec<Regex> = Vec::new();
        let mut i: usize = 0;
        while i < self.categories.len()
            invariant
                i <= self.categories.len(),
                n == self.categories@.len(),
                n == self@.categories.len(),
                self@.unknown() is None,
                all == self@.patterns(),
                all.len() == (if self@.pattern is None {
                    n + 1
                } else {
                    n
                }),
                self@.regex_failure() == first_error(all, i as int),
                self@.categories.len() > 0,
                !self@.has_blank(),
                per_category@.len() == i,
                alternatives@ == alternation(self@.categories.take(i as int)),
                forall|k: int|
                    0 <= k < i ==> pattern_of(#[trigger] per_category@[k])
                        == self@.matcher().each[k],
            decreases self.categories.len() - i,
        {
            let escaped_category = regex::escape(self.categories[i].as_str());
            if i > 0 {
                alternatives.push('|');
            }
            alternatives.append(escaped_category.as_str());
            proof {
                let cats = self@.categories;
                assert(cats.take(i + 1).drop_last() == cats.take(i as int));
                assert(cats.take(i + 1).last() == cats[i as int]);
                assert(cats[i as int] == self.categories@[i as int]@);
                if i == 0 {
                    assert(Seq::<char>::empty() + escaped(cats[0]) == escaped(cats[0]));
                }
            }
            let pattern = self.one_pattern(escaped_category.as_str());
            assert(all[i as int] == self@.matcher().each[i as int]);
            assert(pattern@ == all[i as int]);
            proof {
                lemma_alternation_len(self@.categories, i as int);
                if self@.pattern is None {
                    assert(pattern@ == marker_pattern(self@.rule, self@.categories[i as int]));
                }
            }
            match compile_regex(pattern.as_str()) {
                Ok(re) => {
                    per_category.push(re);
                },
                Err(detail) => {
                    return Err(MatchConfigError::Regex(detail));
                },
            }
            i += 1;
        }
        assert(self@.categories.take(n as int) == self@.categories);
        let combined = match &self.pattern {
            Some(_) => None,
            None => {
                let pattern = self.all_pattern(alternatives.as_str());
                assert(pattern@ == all[n as int]);
                match compile_regex(pattern.as_str()) {
                    Ok(re) => Some(re),
                    Err(detail) => {
                        return Err(MatchConfigError::Regex(detail));
                    },
                }
            },
        };
        proof {
            reveal_with_fuel(first_error, 2);
        }
        let categories = text::clone_strings(&self.categories);
        proof {
            let each = per_category@.map_values(|re: Regex| pattern_of(re));
            assert(each == self@.matcher().each);
            assert(text::texts(categories@) == self@.categories);
            if self@.pattern is None {
                assert(MatcherView { categories: self@.categories, each } == rule_matcher(
                    self@.rule,
                    self@.categories,
                ));
            }
        }
        Ok(Matcher { categories, combined, per_category })
    }

    /// Whether one of the categories is blank.
    fn blank_category(&self) -> (r: bool)
        ensures
            r == self@.has_blank(),
    {
        let mut i: usize = 0;
        while i < self.categories.len()
            invariant
                i <= self.categories.len(),
                forall|k: int| 0 <= k < i ==> !text::is_blank(#[trigger] self@.categories[k]),
            decreases self.categories.len() - i,
        {
            let chars = text::chars_of(self.categories[i].as_str());
            assert(self@.categories[i as int] == chars@);
            if text::blank(&chars) {
                return true;
            }
            i += 1;
        }
        false
    }

    /// The flags, prefix and suffix around a category.
    fn affixes(&self) -> (r: (&'static str, &'static str, &'static str))
        ensures
            r.0@ == flags_text(self.case_sensitive),
            r.1@ == prefix_text(self@.rule),
            r.2@ == suffix_text(self@.rule),
    {
        let flags = if self.case_sensitive {
            "(?m)"
        } else {
            "(?m)(?i)"
        };
        let prefix = if self.require_space_before {
            r"^(?:\W*\s)?"
        } else {
            r"^\W*(?:\b|^)"
        };
        let suffix = if self.require_colon {
            r"\s*:"
        } else {
            r"(?::|!|\(|\s|$)"
        };
        (flags, prefix, suffix)
    }

    /// The pattern of one category, given its escaped text.
    fn one_pattern(&self, category: &str) -> (r: String)
        requires
            self@.unknown() is None,
        ensures
            r@ == (match self@.pattern {
                Some(p) => custom_pattern(self@.rule, p, category@),
                None => flags_text(self.case_sensitive) + prefix_text(self@.rule) + category@
                    + suffix_text(self@.rule),
            }),
    {
        let (flags, prefix, suffix) = self.affixes();
        let mut s = flags.to_owned();
        match &self.pattern {
            Some(p) => {
                proof {
                    lemma_unknown_independent(p@, Seq::empty(), category@, 0);
                }
                if let Ok(text) = fill_pattern(p.as_str(), category) {
                    s.append(text.as_str());
                }
            },
            None => {
                s.append(prefix);
                s.append(category);
                s.append(suffix);
            },
        }
        s
    }

    /// The pattern of all categories under the built-in rule, given the
    /// escaped alternatives.
    fn all_pattern(&self, alternatives: &str) -> (r: String)
        requires
            alternatives@ == alternation(self@.categories),
        ensures
            r@ == any_marker_pattern(self@.rule, self@.categories),
    {
        let (flags, prefix, suffix) = self.affixes();
        let mut s = flags.to_owned();
        s.append(prefix);
        s.append("(?:");
        s.append(alternatives);
        s.append(")");
        s.append(suffix);
        s
    }
}

// ---------------------------------------------------------------------------
// Matching
// ---------------------------------------------------------------------------

/// The first category, from index `k` on, whose pattern matches `text`.
pub open spec fn first_hit(m: MatcherView, text: Seq<char>, k: int) -> Option<Seq<char>>
    decreases m.each.len() - k,
{
    if k < 0 || k >= m.each.len() {
        None
    } else if regex_matches(m.each[k], text) {
        Some(m.categories[k])
    } else {
        first_hit(m, text, k + 1)
    }
}

/// The category of a comment, when it is a marker comment: the first one, in
/// the order of the configuration, whose pattern matches.
pub open spec fn category_of(m: MatcherView, text: Seq<char>) -> Option<Seq<char>> {
    first_hit(m, text, 0)
}

/// The first category with a hit.
pub open spec fn first_true(hits: Seq<bool>, k: int) -> Option<int>
    decreases hits.len() - k,
{
    if k < 0 || k >= hits.len() {
        None
    } else if hits[k] {
        Some(k)
    } else {
        first_true(hits, k + 1)
    }
}

/// The index of the first category with a hit.
pub fn pick_category(hits: &Vec<bool>) -> (r: Option<usize>)
    ensures
        match r {
            Some(k) => first_true(hits@, 0) == Some(k as int) && k < hits.len() && hits@[k as int],
            None => first_true(hits@, 0) is None,
        },
        r is None ==> forall|k: int| 0 <= k < hits.len() ==> !#[trigger] hits@[k],
        r matches Some(j) ==> forall|k: int| 0 <= k < j ==> !#[trigger] hits@[k],
{
    let mut i: usize = 0;
    while i < hits.len()
        invariant
            i <= hits.len(),
            first_true(hits@, 0) == first_true(hits@, i as int),
            forall|k: int| 0 <= k < i ==> !#[trigger] hits@[k],
        decreases hits.len() - i,
    {
        if hits[i] {
            return Some(i);
        }
        i += 1;
    }
    None
}

/// A compiled [`MatchConfig`], cheap to match against comment text.
///
/// Under the built-in rule `combined` tells most comments apart in one
/// search: it matches exactly where one of the others does.
#[derive(Debug)]
pub struct Matcher {
    categories: Vec<String>,
    combined: Option<Regex>,
    per_category: Vec<Regex>,
}

impl View for Matcher {
    type V = MatcherView;

    closed spec fn view(&self) -> MatcherView {
        MatcherView {
            categories: text::texts(self.categories@),
            each: self.per_category@.map_values(|re: Regex| pattern_of(re)),
        }
    }
}

/// Whether `re` is the expression of all categories of `m`.
spec fn is_combined(re: Regex, m: MatcherView) -> bool {
    m.categories.len() > 0 && exists|rule: MatchRule|
        m == #[trigger] rule_matcher(rule, m.categories) && any_marker_pattern(rule, m.categories)
            == pattern_of(re)
}

/// When the expression of all categories does not match, none of theirs does.
proof fn lemma_combined(re: Regex, m: MatcherView, text: Seq<char>)
    requires
        is_combined(re, m),
        forall|rule: MatchRule|
            #[trigger] any_marker_pattern(rule, m.categories) == pattern_of(re) ==> !one_matches(
                rule,
                m.categories,
                text,
            ),
    ensures
        category_of(m, text) is None,
{
    let rule = choose|rule: MatchRule|
        m == #[trigger] rule_matcher(rule, m.categories) && any_marker_pattern(rule, m.categories)
            == pattern_of(re);
    assert(!one_matches(rule, m.categories, text));
    assert forall|j: int| 0 <= j < m.each.len() implies !regex_matches(
        #[trigger] m.each[j],
        text,
    ) by {
        assert(m.each[j] == marker_pattern(rule, m.categories[j]));
    }
    lemma_first_hit(m, text, 0, m.each.len() as int);
}

proof fn lemma_first_hit(m: MatcherView, text: Seq<char>, i: int, k: int)
    requires
        0 <= i <= k <= m.each.len(),
        forall|j: int| i <= j < k ==> !regex_matches(#[trigger] m.each[j], text),
    ensures
        first_hit(m, text, i) == first_hit(m, text, k),
    decreases k - i,
{
    if i < k {
        lemma_first_hit(m, text, i + 1, k);
    }
}

proof fn lemma_first_marked(
    rule: MatchRule,
    categories: Seq<Seq<char>>,
    text: Seq<char>,
    i: int,
    k: int,
)
    requires
        0 <= i <= k <= categories.len(),
        forall|j: int| i <= j < k ==> !has_marker(rule, #[trigger] categories[j], text),
    ensures
        first_marked(rule, categories, text, i) == first_marked(rule, categories, text, k),
    decreases k - i,
{
    if i < k {
        lemma_first_marked(rule, categories, text, i + 1, k);
    }
}

/// A rule shows in the pattern of a category.
proof fn lemma_rule_shows(a: MatchRule, b: MatchRule, category: Seq<char>)
    requires
        marker_pattern(a, category) == marker_pattern(b, category),
    ensures
        a == b,
{
    reveal_strlit("(?m)");
    reveal_strlit("(?m)(?i)");
    reveal_strlit(r"^(?:\W*\s)?");
    reveal_strlit(r"^\W*(?:\b|^)");
    reveal_strlit(r"\s*:");
    reveal_strlit(r"(?::|!|\(|\s|$)");
    let p = marker_pattern(a, category);
    let q = marker_pattern(b, category);
    let n = flags_text(a.case_sensitive).len() as int;
    let m = flags_text(b.case_sensitive).len() as int;
    assert(prefix_text(a)[0] == '^' && prefix_text(b)[0] == '^');
    assert(p[n] == prefix_text(a)[0] && q[m] == prefix_text(b)[0]);
    assert(n == 8 ==> p[4] == '(');
    assert(m == 8 ==> q[4] == '(');
    assert(a.case_sensitive == b.case_sensitive);
    assert(p[n + 1] == prefix_text(a)[1] && q[m + 1] == prefix_text(b)[1]);
    assert(a.require_space_before == b.require_space_before);
    let k = n + prefix_text(a).len() + escaped(category).len();
    assert(p.len() == k + suffix_text(a).len());
    assert(q.len() == k + suffix_text(b).len());
    assert(a.require_colon == b.require_colon);
}

/// When the expression of all categories does not match, a text that ASCII
/// rules tell holds no marker.
proof fn lemma_unmarked(re: Regex, m: MatcherView, text: Seq<char>)
    requires
        is_combined(re, m),
        forall|rule: MatchRule|
            #[trigger] any_marker_pattern(rule, m.categories) == pattern_of(re) && all_plain(
                rule,
                m.categories,
                text,
            ) ==> !has_any_marker(rule, m.categories, text),
    ensures
        forall|rule: MatchRule|
            m == #[trigger] rule_matcher(rule, m.categories) && all_plain(rule, m.categories, text)
                ==> first_marked(rule, m.categories, text, 0) is None,
{
    let own = choose|rule: MatchRule|
        m == #[trigger] rule_matcher(rule, m.categories) && any_marker_pattern(rule, m.categories)
            == pattern_of(re);
    assert forall|rule: MatchRule|
        m == #[trigger] rule_matcher(rule, m.categories) && all_plain(
            rule,
            m.categories,
            text,
        ) implies first_marked(rule, m.categories, text, 0) is None by {
        assert(m.each[0] == marker_pattern(rule, m.categories[0]));
        assert(m.each[0] == marker_pattern(own, m.categories[0]));
        lemma_rule_shows(rule, own, m.categories[0]);
        assert(!has_any_marker(rule, m.categories, text));
        lemma_first_marked(rule, m.categories, text, 0, m.categories.len() as int);
    }
}

/// A marker is the first word of its line: nothing but characters that make no
/// words stands before it, with whitespace last when that is asked for. It
/// spells the category. What follows it is the end of the text, whitespace or
/// one of `:`, `!` and `(`, or a colon behind whitespace when that is asked
/// for.
pub proof fn law_markers_are_first_words(
    rule: MatchRule,
    category: Seq<char>,
    text: Seq<char>,
    i: int,
) -> (b: int)
    requires
        marker_at(rule, category, text, i),
    ensures
        0 <= i <= i + category.len() <= text.len(),
        0 <= b <= i,
        b > 0 ==> text[b - 1] == '\n',
        forall|k: int|
            b <= k < i ==> {
                let n = #[trigger] text[k] as u32;
                &&& !('a' as u32 <= n <= 'z' as u32)
                &&& !('A' as u32 <= n <= 'Z' as u32)
                &&& !('0' as u32 <= n <= '9' as u32)
                &&& text[k] != '_'
                &&& text[k] != '\n'
            },
        b < i && rule.require_space_before ==> text::is_white(text[i - 1]),
        rule.case_sensitive ==> text.subrange(i, i + category.len()) == category,
        !rule.case_sensitive ==> forall|k: int|
            0 <= k < category.len() && (#[trigger] text[i + k]) as u32 <= 0x7F && (
            category[k] as u32) <= 0x7F ==> {
                let x = text[i + k] as u32;
                let y = category[k] as u32;
                ||| x == y
                ||| x == y + 32 && 'A' as u32 <= y <= 'Z' as u32
                ||| y == x + 32 && 'A' as u32 <= x <= 'Z' as u32
            },
        ({
            let e = i + category.len();
            &&& rule.require_colon ==> exists|k: int|
                e <= k < text.len() && #[trigger] text[k] == ':' && forall|j: int|
                    e <= j < k ==> text::is_white(#[trigger] text[j])
            &&& !rule.require_colon ==> e == text.len() || text[e] == ':' || text[e] == '!'
                || text[e] == '(' || text::is_white(text[e])
        }),
{
    let b = lemma_lead(text, i);
    let e = i + category.len();
    let got = text.subrange(i, e);
    assert(b < i ==> !starts_line(text, i));
    if !rule.case_sensitive {
        assert forall|k: int|
            0 <= k < category.len() && (#[trigger] text[i + k]) as u32 <= 0x7F && (
            category[k] as u32) <= 0x7F implies {
            let x = text[i + k] as u32;
            let y = category[k] as u32;
            ||| x == y
            ||| x == y + 32 && 'A' as u32 <= y <= 'Z' as u32
            ||| y == x + 32 && 'A' as u32 <= x <= 'Z' as u32
        } by {
            assert(spells(got[k], category[k]));
            lemma_lower_value(text[i + k]);
            lemma_lower_value(category[k]);
        }
    }
    if rule.require_colon {
        let k = choose|k: int|
            e <= k < text.len() && #[trigger] text[k] == ':' && text::is_blank(text.subrange(e, k));
        assert forall|j: int| e <= j < k implies text::is_white(#[trigger] text[j]) by {
            assert(text.subrange(e, k)[j - e] == text[j]);
        }
        assert(text[k] == ':');
    }
    b
}

proof fn lemma_lower_value(c: char)
    ensures
        'A' as u32 <= c as u32 <= 'Z' as u32 ==> ascii_lower(c) as u32 == c as u32 + 32,
        !('A' as u32 <= c as u32 <= 'Z' as u32) ==> ascii_lower(c) == c,
{
}

/// Where the line of a leading position starts.
proof fn lemma_lead(text: Seq<char>, i: int) -> (b: int)
    requires
        0 <= i <= text.len(),
        is_lead(text, i),
    ensures
        0 <= b <= i,
        b > 0 ==> text[b - 1] == '\n',
        forall|k: int| b <= k < i ==> !is_ascii_word(#[trigger] text[k]) && text[k] != '\n',
        b < i ==> !starts_line(text, i),
    decreases i,
{
    if starts_line(text, i) {
        i
    } else {
        lemma_lead(text, i - 1)
    }
}

/// The first of the categories with a marker in the text is its category, and
/// without any it has none.
pub proof fn law_the_first_marked_category_is_meant(
    rule: MatchRule,
    categories: Seq<Seq<char>>,
    text: Seq<char>,
    i: int,
)
    requires
        0 <= i <= categories.len(),
    ensures
        match first_marked(rule, categories, text, i) {
            Some(c) => exists|k: int|
                {
                    &&& i <= k < categories.len()
                    &&& #[trigger] categories[k] == c
                    &&& has_marker(rule, c, text)
                    &&& forall|j: int|
                        i <= j < k ==> !has_marker(rule, #[trigger] categories[j], text)
                },
            None => forall|k: int|
                i <= k < categories.len() ==> !has_marker(rule, #[trigger] categories[k], text),
        },
    decreases categories.len() - i,
{
    if i < categories.len() && !has_marker(rule, categories[i], text) {
        law_the_first_marked_category_is_meant(rule, categories, text, i + 1);
        if let Some(c) = first_marked(rule, categories, text, i + 1) {
            let k = choose|k: int|
                {
                    &&& i + 1 <= k < categories.len()
                    &&& #[trigger] categories[k] == c
                    &&& has_marker(rule, c, text)
                    &&& forall|j: int|
                        i + 1 <= j < k ==> !has_marker(rule, #[trigger] categories[j], text)
                };
            assert(categories[k] == c);
        }
    } else if i < categories.len() {
        assert(categories[i] == categories[i]);
    }
}

/// The pattern of a category, for each of the rules.
pub proof fn law_patterns_say_what_the_rules_say(rule: MatchRule, category: Seq<char>)
    ensures
        marker_pattern(rule, category) == (if rule.case_sensitive {
            "(?m)"@
        } else {
            "(?m)(?i)"@
        }) + (if rule.require_space_before {
            r"^(?:\W*\s)?"@
        } else {
            r"^\W*(?:\b|^)"@
        }) + escaped(category) + (if rule.require_colon {
            r"\s*:"@
        } else {
            r"(?::|!|\(|\s|$)"@
        }),
{
}

/// A custom pattern with a placeholder stands for the pattern with what the
/// placeholder means in its place, where nothing before it is special: the
/// comment's opening, the marker as a group, the rest of the line as a group,
/// or, for a number, itself. Any other name is refused.
pub proof fn law_placeholders_are_filled_in(
    a: Seq<char>,
    name: Seq<char>,
    b: Seq<char>,
    marker: Seq<char>,
)
    requires
        !a.contains('\\'),
        !a.contains('{'),
        !name.contains('}'),
    ensures
        ({
            let p = a + (seq!['{'] + name + seq!['}']) + b;
            let known = if name == "comment"@ {
                Some(r"\W+"@)
            } else if name == "marker"@ {
                Some("("@ + marker + ")"@)
            } else if name == "content"@ {
                Some("(.*)"@)
            } else if name.len() > 0 && '0' as u32 <= name[0] as u32 <= '9' as u32 {
                Some("{"@ + name + "}"@)
            } else {
                None
            };
            match known {
                None => filled(p, marker) == Err::<Seq<char>, Seq<char>>(name),
                Some(t) => match filled(b, marker) {
                    Ok(rest) => filled(p, marker) == Ok::<Seq<char>, Seq<char>>(a + t + rest),
                    Err(e) => filled(p, marker) == Err::<Seq<char>, Seq<char>>(e),
                },
            }
        }),
{
    let mid = seq!['{'] + name + seq!['}'];
    let p = a + mid + b;
    let i = a.len() as int;
    let c = i + name.len() + 1;
    lemma_plain_head(p, marker, 0, i);
    assert(p.take(i) == a);
    assert(p.subrange(0, i) == a);
    assert forall|k: int| i <= k < c implies p[k] != '}' by {
        if k > i {
            assert(p[k] == name[k - i - 1]);
            assert(name.contains(name[k - i - 1]));
        }
    }
    assert(p[i] == '{' && p[c] == '}');
    lemma_brace_is(p, i, c);
    assert(p.subrange(i + 1, c) == name);
    lemma_filled_shift(a + mid, b, marker, 0);
    assert(a + mid + b == p);
    match placeholder(name, marker) {
        Some(t) => {
            match filled(b, marker) {
                Ok(rest) => {
                    assert(a + (t + rest) == a + t + rest);
                },
                Err(_) => {},
            }
        },
        None => {},
    }
}

/// A custom pattern without backslashes and braces stands for itself.
pub proof fn law_plain_patterns_stay(p: Seq<char>, marker: Seq<char>)
    requires
        !p.contains('\\'),
        !p.contains('{'),
    ensures
        filled(p, marker) == Ok::<Seq<char>, Seq<char>>(p),
{
    assert forall|k: int| 0 <= k < p.len() implies p[k] != '\\' && p[k] != '{' by {
        assert(p.contains(p[k]));
    }
    lemma_plain_head(p, marker, 0, p.len() as int);
    assert(p.subrange(0, p.len() as int) == p);
    assert(p + Seq::<char>::empty() == p);
}

/// Characters that are not special are taken over.
proof fn lemma_plain_head(p: Seq<char>, marker: Seq<char>, i: int, n: int)
    requires
        0 <= i <= n <= p.len(),
        forall|k: int| i <= k < n ==> p[k] != '\\' && p[k] != '{',
    ensures
        filled_from(p, marker, i) == with_head(p.subrange(i, n), filled_from(p, marker, n)),
    decreases n - i,
{
    if i < n {
        lemma_plain_head(p, marker, i + 1, n);
        assert(p.subrange(i, n) == seq![p[i]] + p.subrange(i + 1, n));
        match filled_from(p, marker, n) {
            Ok(tail) => {
                assert(seq![p[i]] + (p.subrange(i + 1, n) + tail) == p.subrange(i, n) + tail);
            },
            Err(_) => {},
        }
    } else {
        match filled_from(p, marker, n) {
            Ok(tail) => {
                assert(p.subrange(i, n) + tail == tail);
            },
            Err(_) => {},
        }
    }
}

/// The first closing brace is where [`brace_from`] stops.
proof fn lemma_brace_is(p: Seq<char>, i: int, n: int)
    requires
        0 <= i <= n < p.len(),
        p[n] == '}',
        forall|k: int| i <= k < n ==> p[k] != '}',
    ensures
        brace_from(p, i) == n,
    decreases n - i,
{
    if i < n {
        lemma_brace_is(p, i + 1, n);
    }
}

/// What a pattern stands for does not depend on what stands before it.
proof fn lemma_filled_shift(a: Seq<char>, b: Seq<char>, marker: Seq<char>, i: int)
    requires
        0 <= i <= b.len(),
    ensures
        filled_from(a + b, marker, a.len() + i) == filled_from(b, marker, i),
    decreases b.len() - i,
{
    let p = a + b;
    let m = a.len() as int;
    if i < b.len() {
        assert(p[m + i] == b[i]);
        lemma_brace_from(b, i);
        lemma_brace_shift(a, b, i);
        let c = brace_from(b, i);
        if b[i] == '\\' && i + 1 < b.len() {
            if i + 2 < b.len() {
                assert(p[m + i + 2] == b[i + 2]);
                lemma_brace_from(b, i + 2);
                lemma_brace_shift(a, b, i + 2);
            }
            assert(escape_end(p, m + i) == m + escape_end(b, i));
            assert(p.subrange(m + i, m + escape_end(b, i)) == b.subrange(i, escape_end(b, i)));
            lemma_filled_shift(a, b, marker, escape_end(b, i));
        } else if b[i] == '{' && c < b.len() {
            lemma_brace_from(b, i + 1);
            assert(p.subrange(m + i + 1, m + c) == b.subrange(i + 1, c));
            lemma_filled_shift(a, b, marker, c + 1);
        } else {
            lemma_filled_shift(a, b, marker, i + 1);
        }
    }
}

proof fn lemma_brace_shift(a: Seq<char>, b: Seq<char>, i: int)
    requires
        0 <= i <= b.len(),
    ensures
        brace_from(a + b, a.len() + i) == a.len() + brace_from(b, i),
    decreases b.len() - i,
{
    if i < b.len() {
        assert((a + b)[a.len() + i] == b[i]);
        if b[i] != '}' {
            lemma_brace_shift(a, b, i + 1);
        }
    }
}

/// Settings are refused for the first thing that is wrong with them: that
/// there is no category, that one is blank, that the pattern has an unknown
/// placeholder, or that an expression cannot be compiled.
pub proof fn law_settings_are_refused_for_one_reason(s: MatchSettings, e: MatchConfigError)
    requires
        s.refused_with(e),
    ensures
        !s.compiles(),
        e is NoCategories <==> s.categories.len() == 0,
        e is EmptyCategory <==> s.categories.len() > 0 && exists|k: int|
            0 <= k < s.categories.len() && text::is_blank(#[trigger] s.categories[k]),
        e matches MatchConfigError::UnknownPlaceholder(name) ==> (s.pattern matches Some(p)
            && filled(p, Seq::empty()) == Err::<Seq<char>, Seq<char>>(name@)),
{
}

/// Escaping puts a backslash before every character that is special in an
/// expression, and before no other.
pub proof fn law_special_characters_are_escaped(s: Seq<char>, c: char)
    ensures
        escaped(Seq::empty()) == Seq::<char>::empty(),
        escaped(s.push(c)) == escaped(s) + (if seq![
            '\\',
            '.',
            '+',
            '*',
            '?',
            '(',
            ')',
            '|',
            '[',
            ']',
            '{',
            '}',
            '^',
            '$',
            '#',
            '&',
            '-',
            '~',
        ].contains(c) {
            seq!['\\', c]
        } else {
            seq![c]
        }),
{
    let special = seq![
        '\\',
        '.',
        '+',
        '*',
        '?',
        '(',
        ')',
        '|',
        '[',
        ']',
        '{',
        '}',
        '^',
        '$',
        '#',
        '&',
        '-',
        '~',
    ];
    assert(special[0] == '\\' && special[1] == '.' && special[2] == '+' && special[3] == '*'
        && special[4] == '?' && special[5] == '(' && special[6] == ')' && special[7] == '|'
        && special[8] == '[' && special[9] == ']' && special[10] == '{' && special[11] == '}'
        && special[12] == '^' && special[13] == '$' && special[14] == '#' && special[15] == '&'
        && special[16] == '-' && special[17] == '~');
    assert(special.contains(c) <==> is_meta(c));
    assert(s.push(c).drop_last() == s);
    assert(escaped(s).push('\\').push(c) == escaped(s) + seq!['\\', c]);
    assert(escaped(s).push(c) == escaped(s) + seq![c]);
}

/// The pattern for any of the categories has them as alternatives, in order.
pub proof fn law_any_category_is_an_alternative(rule: MatchRule, categories: Seq<Seq<char>>)
    ensures
        alternation(categories) == text::joined_texts(
            categories.map_values(|c: Seq<char>| escaped(c)),
            seq!['|'],
        ),
        any_marker_pattern(rule, categories) == (if rule.case_sensitive {
            "(?m)"@
        } else {
            "(?m)(?i)"@
        }) + (if rule.require_space_before {
            r"^(?:\W*\s)?"@
        } else {
            r"^\W*(?:\b|^)"@
        }) + "(?:"@ + alternation(categories) + ")"@ + (if rule.require_colon {
            r"\s*:"@
        } else {
            r"(?::|!|\(|\s|$)"@
        }),
    decreases categories.len(),
{
    let f = |c: Seq<char>| escaped(c);
    let es = categories.map_values(f);
    if categories.len() > 1 {
        law_any_category_is_an_alternative(rule, categories.drop_last());
        assert(es.drop_last() == categories.drop_last().map_values(f));
        let low = alternation(categories.drop_last());
        assert(low.push('|') == low + seq!['|']);
    }
}

/// The category of a comment is the first one, in the order of the
/// configuration and not of the text, that the matcher of this category alone
/// finds; there is none exactly when no category is found alone.
pub proof fn law_the_first_configured_category_wins(s: MatchSettings, text: Seq<char>)
    ensures
        match category_of(s.matcher(), text) {
            Some(c) => exists|k: int| #[trigger] is_first_alone(s, text, k) && s.categories[k] == c,
            None => forall|k: int|
                0 <= k < s.categories.len() ==> category_of(
                    s.only(#[trigger] s.categories[k]).matcher(),
                    text,
                ) is None,
        },
{
    assert forall|k: int| 0 <= k < s.categories.len() implies category_of(
        s.only(#[trigger] s.categories[k]).matcher(),
        text,
    ) == (if regex_matches(s.matcher().each[k], text) {
        Some(s.categories[k])
    } else {
        None
    }) by {
        reveal_with_fuel(first_hit, 2);
        assert(s.only(s.categories[k]).matcher().each[0] == s.matcher().each[k]);
    }
    lemma_where_hit(s.matcher(), text, 0);
    if let Some(c) = category_of(s.matcher(), text) {
        let k = choose|k: int| is_first_hit(s.matcher(), text, 0, k);
        assert(is_first_alone(s, text, k));
    }
}

/// Whether the category at index `k` is the first one that its own matcher
/// finds in `text`.
pub open spec fn is_first_alone(s: MatchSettings, text: Seq<char>, k: int) -> bool {
    &&& 0 <= k < s.categories.len()
    &&& category_of(s.only(s.categories[k]).matcher(), text) == Some(s.categories[k])
    &&& forall|j: int|
        0 <= j < k ==> category_of(s.only(#[trigger] s.categories[j]).matcher(), text) is None
}

/// Whether the pattern at index `k` is the first, from index `i` on, that
/// matches.
spec fn is_first_hit(m: MatcherView, text: Seq<char>, i: int, k: int) -> bool {
    &&& i <= k < m.each.len()
    &&& regex_matches(m.each[k], text)
    &&& forall|j: int| i <= j < k ==> !regex_matches(#[trigger] m.each[j], text)
}

proof fn lemma_where_hit(m: MatcherView, text: Seq<char>, i: int)
    requires
        0 <= i,
    ensures
        match first_hit(m, text, i) {
            Some(c) => exists|k: int| is_first_hit(m, text, i, k) && m.categories[k] == c,
            None => forall|j: int|
                i <= j < m.each.len() ==> !regex_matches(#[trigger] m.each[j], text),
        },
    decreases m.each.len() - i,
{
    if i < m.each.len() {
        if regex_matches(m.each[i], text) {
            assert(is_first_hit(m, text, i, i));
        } else {
            lemma_where_hit(m, text, i + 1);
            if first_hit(m, text, i + 1) is Some {
                let k = choose|k: int| is_first_hit(m, text, i + 1, k) && m.categories[k]
                    == first_hit(m, text, i + 1)->0;
                assert(is_first_hit(m, text, i, k));
            }
        }
    }
}

/// The built-in settings are simple, so they compile.
pub proof fn lemma_default_is_simple()
    ensures
        default_settings().is_simple(),
{
    let cats = default_settings().categories;
    reveal_strlit("TODO");
    reveal_strlit("FIXME");
    assert(!text::is_white('T') && !text::is_white('F'));
    assert(cats[0][0] == 'T' && cats[1][0] == 'F');
    assert(!text::is_blank(cats[0]) && !text::is_blank(cats[1]));
    lemma_escaped_len(cats[0]);
    lemma_escaped_len(cats[1]);
    reveal_with_fuel(alternation, 2);
    assert(cats.drop_last()[0] == cats[0]);
}

impl Matcher {
    /// Every category has its pattern, and the expression of all of them
    /// belongs to them.
    #[verifier::type_invariant]
    spec fn wf(self) -> bool {
        &&& self.per_category@.len() == self.categories@.len()
        &&& self.combined matches Some(re) ==> is_combined(re, self@)
    }

    /// Returns the name of the first configured category that `text` is
    /// marked with, or `None` if the comment is not a marker comment.
    ///
    /// For a matcher of the built-in rule and plain categories this is the
    /// first category of which `text` holds a marker.
    pub fn match_category(&self, text: &str) -> (r: Option<&str>)
        ensures
            match r {
                Some(category) => category_of(self@, text@) == Some(category@),
                None => category_of(self@, text@) is None,
            },
            forall|rule: MatchRule|
                self@ == #[trigger] rule_matcher(rule, self@.categories) && all_plain(
                    rule,
                    self@.categories,
                    text@,
                ) && self@.categories.len() > 0 ==> (match r {
                    Some(category) => first_marked(rule, self@.categories, text@, 0) == Some(
                        category@,
                    ),
                    None => first_marked(rule, self@.categories, text@, 0) is None,
                }),
    {
        let ghost m = self@;
        proof {
            use_type_invariant(self);
        }
        assert(m.each.len() == self.per_category@.len());
        assert(m.categories.len() == self.categories@.len());
        if let Some(combined) = &self.combined {
            if !is_match(combined, text) {
                proof {
                    lemma_combined(*combined, m, text@);
                    lemma_unmarked(*combined, m, text@);
                }
                return None;
            }
        }
        let mut hits: Vec<bool> = Vec::new();
        let mut i: usize = 0;
        while i < self.per_category.len()
            invariant
                i <= self.per_category.len(),
                m == self@,
                m.each.len() == m.categories.len(),
                m.each.len() == self.per_category@.len(),
                hits@.len() == i,
                forall|k: int| 0 <= k < i ==> #[trigger] hits@[k] == regex_matches(m.each[k], text@),
                forall|rule: MatchRule, k: int|
                    0 <= k < i && m == #[trigger] rule_matcher(rule, m.categories) && is_plain(
                        rule,
                        m.categories[k],
                        text@,
                    ) ==> #[trigger] hits@[k] == has_marker(rule, m.categories[k], text@),
            decreases self.per_category.len() - i,
        {
            let hit = is_match(&self.per_category[i], text);
            let ghost p = pattern_of(self.per_category@[i as int]);
            assert(p == m.each[i as int]);
            hits.push(hit);
            assert forall|rule: MatchRule|
                m == #[trigger] rule_matcher(rule, m.categories) && is_plain(
                    rule,
                    m.categories[i as int],
                    text@,
                ) implies hit == has_marker(rule, m.categories[i as int], text@) by {
                assert(m.each[i as int] == marker_pattern(rule, m.categories[i as int]));
            }
            i += 1;
        }
        let picked = pick_category(&hits);
        proof {
            let end = match picked {
                Some(k) => k as int,
                None => m.each.len() as int,
            };
            assert forall|j: int| 0 <= j < end implies !regex_matches(#[trigger] m.each[j], text@) by {
                assert(!hits@[j]);
            }
            lemma_first_hit(m, text@, 0, end);
            assert forall|rule: MatchRule|
                m == #[trigger] rule_matcher(rule, m.categories) && all_plain(
                    rule,
                    m.categories,
                    text@,
                ) implies first_marked(rule, m.categories, text@, 0) == (match picked {
                Some(k) => Some(m.categories[k as int]),
                None => None,
            }) by {
                assert forall|j: int| 0 <= j < end implies !has_marker(
                    rule,
                    #[trigger] m.categories[j],
                    text@,
                ) by {
                    assert(!hits@[j]);
                    assert(is_plain(rule, m.categories[j], text@));
                }
                lemma_first_marked(rule, m.categories, text@, 0, end);
                if let Some(k) = picked {
                    assert(hits@[k as int]);
                    assert(is_plain(rule, m.categories[k as int], text@));
                }
            }
        }
        match picked {
            Some(k) => {
                assert(m.categories[k as int] == self.categories@[k as int]@);
                Some(self.categories[k].as_str())
            },
            None => None,
        }
    }
}

} // verus!
