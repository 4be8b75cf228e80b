//! Reading what `gh issue create --json number,url` prints.
//!
//! The output is a JSON object with the members `number` and `url`, in any
//! order and among others, or an array of the two values. `serde_json` reads
//! the values; which members an issue is made of, that none of the two may be
//! missing or come twice, and what is said when one does, stands here.

use crate::forge;
use crate::forge::{ForgeError, IssueCreated};
use crate::matcher;
use crate::text;
use vstd::prelude::*;
use vstd::string::*;

verus! {

// ---------------------------------------------------------------------------
// Values
// ---------------------------------------------------------------------------

/// The number at the start of `text` and what follows it, as `serde_json`
/// reads it, or the text of its error.
pub uninterp spec fn json_number(text: Seq<char>) -> Result<(int, Seq<char>), Seq<char>>;

/// The string at the start of `text` and what follows it, as `serde_json`
/// reads it, or the text of its error.
pub uninterp spec fn json_text(text: Seq<char>) -> Result<(Seq<char>, Seq<char>), Seq<char>>;

/// What follows the value at the start of `text`, as `serde_json` reads it,
/// or the text of its error.
pub uninterp spec fn json_skip(text: Seq<char>) -> Result<Seq<char>, Seq<char>>;

/// Why `serde_json` does not read `text` as one object, or `None` when it
/// does.
pub uninterp spec fn object_error(text: Seq<char>) -> Option<Seq<char>>;

/// The number and the string of the document `text`, when `serde_json` reads
/// it as an array of just these two, or its error.
pub uninterp spec fn json_pair(text: Seq<char>) -> Result<(int, Seq<char>), FaultView>;

/// The content of a [`JsonFault`].
#[verifier::ext_equal]
pub struct FaultView {
    pub text: Seq<char>,
    pub line: int,
    pub column: int,
}

/// An error of `serde_json`.
#[derive(Debug, PartialEq, Eq)]
pub struct JsonFault {
    /// The error in words.
    pub text: String,
    /// The line it names.
    pub line: usize,
    /// The column it names.
    pub column: usize,
}

impl View for JsonFault {
    type V = FaultView;

    open spec fn view(&self) -> FaultView {
        FaultView { text: self.text@, line: self.line as int, column: self.column as int }
    }
}

/// The content of a number read.
pub open spec fn number_view(r: Result<(u64, String), String>) -> Result<
    (int, Seq<char>),
    Seq<char>,
> {
    match r {
        Ok((n, rest)) => Ok((n as int, rest@)),
        Err(e) => Err(e@),
    }
}

/// The content of a string read.
pub open spec fn string_view(r: Result<(String, String), String>) -> Result<
    (Seq<char>, Seq<char>),
    Seq<char>,
> {
    match r {
        Ok((t, rest)) => Ok((t@, rest@)),
        Err(e) => Err(e@),
    }
}

/// The content of a value passed over.
pub open spec fn rest_view(r: Result<String, String>) -> Result<Seq<char>, Seq<char>> {
    match r {
        Ok(rest) => Ok(rest@),
        Err(e) => Err(e@),
    }
}

/// The content of a pair read.
pub open spec fn pair_view(r: Result<(u64, String), JsonFault>) -> Result<
    (int, Seq<char>),
    FaultView,
> {
    match r {
        Ok((n, t)) => Ok((n as int, t@)),
        Err(fault) => Err(fault@),
    }
}

/// Reads a number; calls `u64::deserialize` with a `serde_json::Deserializer`
/// of the text, and hands back what that has not consumed. The result depends
/// on the text alone.
#[verifier::external_body]
fn read_number(text: &str) -> (r: Result<(u64, String), String>)
    ensures
        number_view(r) == json_number(text@),
{
    let mut de = serde_json::Deserializer::from_str(text);
    let value = <u64 as serde::de::Deserialize>::deserialize(&mut de);
    let end = de.into_iter::<serde::de::IgnoredAny>().byte_offset();
    value.map(|n| (n, text[end..].to_owned())).map_err(|e| e.to_string())
}

/// Reads a string; calls `String::deserialize` with a
/// `serde_json::Deserializer` of the text, and hands back what that has not
/// consumed. The result depends on the text alone.
#[verifier::external_body]
fn read_text(text: &str) -> (r: Result<(String, String), String>)
    ensures
        string_view(r) == json_text(text@),
{
    let mut de = serde_json::Deserializer::from_str(text);
    let value = <String as serde::de::Deserialize>::deserialize(&mut de);
    let end = de.into_iter::<serde::de::IgnoredAny>().byte_offset();
    value.map(|t| (t, text[end..].to_owned())).map_err(|e| e.to_string())
}

/// Passes over a value of any type; calls `IgnoredAny::deserialize` with a
/// `serde_json::Deserializer` of the text, and hands back what that has not
/// consumed. The result depends on the text alone.
#[verifier::external_body]
fn skip_value(text: &str) -> (r: Result<String, String>)
    ensures
        rest_view(r) == json_skip(text@),
{
    let mut de = serde_json::Deserializer::from_str(text);
    let value = <serde::de::IgnoredAny as serde::de::Deserialize>::deserialize(&mut de);
    let end = de.into_iter::<serde::de::IgnoredAny>().byte_offset();
    value.map(|_| text[end..].to_owned()).map_err(|e| e.to_string())
}

/// Why a text is not one JSON object; calls `serde_json::from_str` for a map
/// from strings to values that are passed over. The result depends on the
/// text alone.
#[verifier::external_body]
fn object_fault(text: &str) -> (r: Option<String>)
    ensures
        matcher::text_option(r) == object_error(text@),
{
    let members: Result<
        std::collections::BTreeMap<String, serde::de::IgnoredAny>,
        serde_json::Error,
    > = serde_json::from_str(text);
    members.err().map(|e| e.to_string())
}

/// Reads an array of a number and a string; calls `serde_json::from_str` for
/// a pair. The result depends on the text alone.
#[verifier::external_body]
fn read_pair(text: &str) -> (r: Result<(u64, String), JsonFault>)
    ensures
        pair_view(r) == json_pair(text@),
{
    serde_json::from_str(text).map_err(
        |e: serde_json::Error|
            JsonFault { text: e.to_string(), line: e.line(), column: e.column() },
    )
}

// ---------------------------------------------------------------------------
// Places
// ---------------------------------------------------------------------------

/// The number of the line that position `p` is on.
pub open spec fn line_number(s: Seq<char>, p: int) -> nat
    decreases p,
{
    if p <= 0 {
        1
    } else if s[p - 1] == '\n' {
        line_number(s, p - 1) + 1
    } else {
        line_number(s, p - 1)
    }
}

/// The line of a position counts the line feeds before it.
pub proof fn law_lines_are_counted_by_line_feeds(s: Seq<char>, p: int)
    requires
        0 <= p <= s.len(),
    ensures
        line_number(s, p) == 1 + text::newlines(s.take(p)),
    decreases p,
{
    if p > 0 {
        law_lines_are_counted_by_line_feeds(s, p - 1);
        assert(s.take(p).drop_last() == s.take(p - 1));
    }
}

/// A place in words.
pub open spec fn place_text(line: nat, column: nat) -> Seq<char> {
    " at line "@ + text::decimal(line) + " column "@ + text::decimal(column)
}

/// The place of position `p` in words; columns count bytes.
pub open spec fn place_of(s: Seq<char>, p: int) -> Seq<char> {
    place_text(line_number(s, p), text::column_at(s, p) as nat)
}

/// A place in words.
fn place(line: usize, column: usize) -> (r: String)
    ensures
        r@ == place_text(line as nat, column as nat),
{
    let mut r = " at line ".to_owned();
    r.append(text::decimal_string(line).as_str());
    r.append(" column ");
    r.append(text::decimal_string(column).as_str());
    r
}

/// The line and the column of position `p`, which stands behind the opening
/// brace at `open`.
fn position(cs: &Vec<char>, open: usize, p: usize) -> (r: (usize, usize))
    requires
        open < p <= cs.len(),
        cs@[open as int] == '{',
        text::byte_len(cs@) <= usize::MAX,
    ensures
        r.0 == line_number(cs@, p as int),
        r.1 == text::column_at(cs@, p as int),
{
    let mut line: usize = 1;
    let mut column: usize = 0;
    let mut i: usize = 0;
    assert(cs@.take(0) == Seq::<char>::empty());
    while i < p
        invariant
            i <= p <= cs.len(),
            open < p,
            cs@[open as int] == '{',
            text::byte_len(cs@) <= usize::MAX,
            line == line_number(cs@, i as int),
            line <= i + 1,
            open < i ==> line <= i,
            column == text::column_at(cs@, i as int),
            column <= text::byte_len(cs@.take(i as int)),
        decreases p - i,
    {
        proof {
            text::lemma_byte_len_prefix(cs@, i as int, i + 1);
            assert(cs@.take(i + 1).drop_last() == cs@.take(i as int));
        }
        if cs[i] == '\n' {
            line += 1;
            column = 0;
        } else {
            column += text::width_of(cs[i]);
        }
        i += 1;
    }
    (line, column)
}

/// The first `p` characters with a blank in place of every byte, line feeds
/// kept: what follows keeps its place behind them.
pub open spec fn blanked(s: Seq<char>, p: int) -> Seq<char>
    decreases p,
{
    if p <= 0 {
        Seq::empty()
    } else if s[p - 1] == '\n' {
        blanked(s, p - 1).push('\n')
    } else {
        blanked(s, p - 1) + Seq::new(text::utf8_width(s[p - 1]), |i: int| ' ')
    }
}

/// A blanked text has the bytes and the line feeds of the text, and else only
/// spaces: what stands behind it keeps its line and column.
pub proof fn law_blanking_keeps_places(s: Seq<char>, p: int)
    requires
        0 <= p <= s.len(),
    ensures
        text::byte_len(blanked(s, p)) == text::byte_len(s.take(p)),
        text::newlines(blanked(s, p)) == text::newlines(s.take(p)),
        forall|k: int|
            0 <= k < blanked(s, p).len() ==> (#[trigger] blanked(s, p)[k]) == ' ' || blanked(
                s,
                p,
            )[k] == '\n',
    decreases p,
{
    if p > 0 {
        law_blanking_keeps_places(s, p - 1);
        assert(s.take(p).drop_last() == s.take(p - 1));
        let low = blanked(s, p - 1);
        let c = s[p - 1];
        if c == '\n' {
            assert(low.push('\n').drop_last() == low);
        } else {
            let n = text::utf8_width(c);
            let gap = Seq::new(n, |i: int| ' ');
            lemma_blank_run(n);
            text::lemma_byte_len_concat(low, gap);
            text::lemma_newlines_concat(low, gap);
        }
    } else {
        assert(s.take(0) == Seq::<char>::empty());
    }
}

proof fn lemma_blank_run(n: nat)
    ensures
        text::byte_len(Seq::new(n, |i: int| ' ')) == n,
        text::newlines(Seq::new(n, |i: int| ' ')) == 0,
    decreases n,
{
    let gap = Seq::new(n, |i: int| ' ');
    if n > 0 {
        lemma_blank_run((n - 1) as nat);
        assert(gap.drop_last() == Seq::new((n - 1) as nat, |i: int| ' '));
    }
}

/// The text from position `p` on, in its place.
pub open spec fn laid_out(s: Seq<char>, p: int) -> Seq<char> {
    blanked(s, p) + s.skip(p)
}

/// The text from position `p` on, in its place.
fn lay_out(cs: &Vec<char>, p: usize) -> (r: String)
    requires
        p <= cs.len(),
    ensures
        r@ == laid_out(cs@, p as int),
{
    let mut out = String::new();
    let mut i: usize = 0;
    while i < p
        invariant
            i <= p <= cs.len(),
            out@ == blanked(cs@, i as int),
        decreases p - i,
    {
        let ghost before = out@;
        if cs[i] == '\n' {
            out.push('\n');
        } else {
            let w: usize = text::width_of(cs[i]);
            let mut k: usize = 0;
            assert(before + Seq::new(0, |i: int| ' ') == before);
            while k < w
                invariant
                    k <= w,
                    out@ == before + Seq::new(k as nat, |i: int| ' '),
                decreases w - k,
            {
                out.push(' ');
                k += 1;
                assert(out@ == before + Seq::new(k as nat, |i: int| ' '));
            }
        }
        i += 1;
    }
    let rest = text::string_of(&text::slice_of(cs, p, cs.len()));
    assert(rest@ == cs@.skip(p as int));
    out.append(rest.as_str());
    out
}

// ---------------------------------------------------------------------------
// Members
// ---------------------------------------------------------------------------

/// Whether `c` is whitespace in JSON.
pub open spec fn is_json_white(c: char) -> bool {
    c == ' ' || c == '\n' || c == '\t' || c == '\r'
}

/// The first position at or after `p` that is no whitespace, or the end.
pub open spec fn past_white(s: Seq<char>, p: int) -> int
    decreases s.len() - p,
{
    if p < s.len() && is_json_white(s[p]) {
        past_white(s, p + 1)
    } else {
        p
    }
}

/// The first position at or after `p` that is no whitespace, or the end.
fn skip_white(cs: &Vec<char>, p: usize) -> (r: usize)
    requires
        p <= cs.len(),
    ensures
        r == past_white(cs@, p as int),
        p <= r <= cs.len(),
{
    let mut i: usize = p;
    while i < cs.len() && (cs[i] == ' ' || cs[i] == '\n' || cs[i] == '\t' || cs[i] == '\r')
        invariant
            p <= i <= cs.len(),
            past_white(cs@, p as int) == past_white(cs@, i as int),
        decreases cs.len() - i,
    {
        i += 1;
    }
    i
}

/// What a member is to the issue.
#[derive(Debug, Clone, Copy, PartialEq, Eq)]
pub enum Role {
    /// The number of the issue.
    Number,
    /// The URL of the issue.
    Url,
    /// Nothing.
    Other,
    /// A number or a URL that has come before.
    Duplicate,
}

/// What the member `key` is to an issue whose number or URL may have come.
pub open spec fn role(key: Seq<char>, number: bool, url: bool) -> Role {
    if key == "number"@ {
        if number {
            Role::Duplicate
        } else {
            Role::Number
        }
    } else if key == "url"@ {
        if url {
            Role::Duplicate
        } else {
            Role::Url
        }
    } else {
        Role::Other
    }
}

/// What the member `key` is to an issue whose number or URL may have come.
pub fn role_of(key: &str, number: bool, url: bool) -> (r: Role)
    ensures
        r == role(key@, number, url),
{
    if text::same_text(key, "number") {
        if number {
            Role::Duplicate
        } else {
            Role::Number
        }
    } else if text::same_text(key, "url") {
        if url {
            Role::Duplicate
        } else {
            Role::Url
        }
    } else {
        Role::Other
    }
}

/// The issue of an object that has been read up to the place `at`; `fault`
/// says why the whole text is not one object.
pub open spec fn issue_of(
    number: Option<int>,
    url: Option<Seq<char>>,
    at: Seq<char>,
    fault: Option<Seq<char>>,
) -> Result<forge::IssueView, Seq<char>> {
    match (number, url, fault) {
        (None, _, _) => Err("missing field `number`"@ + at),
        (_, None, _) => Err("missing field `url`"@ + at),
        (_, _, Some(e)) => Err(e),
        (Some(n), Some(u), None) => Ok(forge::IssueView { number: n, url: u }),
    }
}

/// An optional number.
pub open spec fn number_option(n: Option<u64>) -> Option<int> {
    match n {
        Some(n) => Some(n as int),
        None => None,
    }
}

/// The content of an issue read, or of the error.
pub open spec fn issue_view(r: Result<IssueCreated, String>) -> Result<
    forge::IssueView,
    Seq<char>,
> {
    match r {
        Ok(issue) => Ok(issue@),
        Err(e) => Err(e@),
    }
}

/// An issue needs a number and an address, and an object that was read to its
/// end; it has just those.
pub proof fn law_issues_have_a_number_and_an_address(
    number: Option<int>,
    url: Option<Seq<char>>,
    at: Seq<char>,
    fault: Option<Seq<char>>,
)
    ensures
        issue_of(number, url, at, fault) is Ok <==> number is Some && url is Some && fault is None,
        issue_of(number, url, at, fault) matches Ok(issue) ==> Some(issue.number) == number && Some(
            issue.url,
        ) == url,
        number is None ==> issue_of(number, url, at, fault) == Err::<forge::IssueView, Seq<char>>(
            "missing field `number`"@ + at,
        ),
        number is Some && url is None ==> issue_of(number, url, at, fault) == Err::<
            forge::IssueView,
            Seq<char>,
        >("missing field `url`"@ + at),
        number is Some && url is Some && fault is Some ==> issue_of(number, url, at, fault) == Err::<
            forge::IssueView,
            Seq<char>,
        >(fault->0),
{
}

/// The first `number` and the first `url` of an object are read as such, a
/// second one is refused, and any other member is passed over.
pub proof fn law_members_are_told_by_their_keys(key: Seq<char>, number: bool, url: bool)
    ensures
        role(key, number, url) is Number <==> key == "number"@ && !number,
        role(key, number, url) is Url <==> key == "url"@ && !url,
        role(key, number, url) is Duplicate <==> key == "number"@ && number || key == "url"@ && url,
        role(key, number, url) is Other <==> key != "number"@ && key != "url"@,
{
    reveal_strlit("number");
    reveal_strlit("url");
    assert("number"@.len() == 6 && "url"@.len() == 3);
}

/// The issue of an object that has been read up to a line and column; `fault`
/// says why the whole text is not one object.
///
/// # Errors
///
/// Says which member is missing, or hands on `fault`.
pub fn issue_from_members(
    number: Option<u64>,
    url: Option<String>,
    line: usize,
    column: usize,
    fault: Option<String>,
) -> (r: Result<IssueCreated, String>)
    ensures
        issue_view(r) == issue_of(
            number_option(number),
            matcher::text_option(url),
            place_text(line as nat, column as nat),
            matcher::text_option(fault),
        ),
{
    match (number, url, fault) {
        (None, _, _) => {
            let mut e = "missing field `number`".to_owned();
            e.append(place(line, column).as_str());
            Err(e)
        },
        (_, None, _) => {
            let mut e = "missing field `url`".to_owned();
            e.append(place(line, column).as_str());
            Err(e)
        },
        (_, _, Some(e)) => Err(e),
        (Some(number), Some(url), None) => Ok(IssueCreated { number, url }),
    }
}

/// What is said of a text whose members cannot be told apart.
pub open spec fn malformed(s: Seq<char>) -> Result<forge::IssueView, Seq<char>> {
    match object_error(s) {
        Some(e) => Err(e),
        None => Err("expected an object"@),
    }
}

/// Where a member that stands at `u`, or behind a comma there, starts; the
/// end when there is none.
pub open spec fn member_start(s: Seq<char>, u: int, first: bool) -> int {
    if first {
        u
    } else if s[u] == ',' {
        past_white(s, u + 1)
    } else {
        s.len() as int
    }
}

/// The first member of an object starts where it stands, and every other one
/// behind a comma and whitespace.
pub proof fn law_members_stand_behind_commas(s: Seq<char>, u: int)
    requires
        0 <= u < s.len(),
    ensures
        member_start(s, u, true) == u,
        s[u] != ',' ==> member_start(s, u, false) == s.len(),
        s[u] == ',' ==> {
            let k = member_start(s, u, false);
            &&& u < k <= s.len()
            &&& forall|j: int|
                u < j < k ==> (#[trigger] s[j]) == ' ' || s[j] == '\n' || s[j] == '\t' || s[j]
                    == '\r'
            &&& k < s.len() ==> s[k] != ' ' && s[k] != '\n' && s[k] != '\t' && s[k] != '\r'
        },
{
    if s[u] == ',' {
        lemma_past_white_is(s, u + 1);
    }
}

proof fn lemma_past_white_is(s: Seq<char>, p: int)
    requires
        0 <= p <= s.len(),
    ensures
        p <= past_white(s, p) <= s.len(),
        forall|j: int| p <= j < past_white(s, p) ==> is_json_white(#[trigger] s[j]),
        past_white(s, p) < s.len() ==> !is_json_white(s[past_white(s, p)]),
    decreases s.len() - p,
{
    if p < s.len() && is_json_white(s[p]) {
        lemma_past_white_is(s, p + 1);
    }
}

/// Where what is left of a text of `len` characters starts.
pub open spec fn left_at(len: nat, rest: Seq<char>) -> int {
    len - rest.len()
}

/// The issue that the members of the object `s` from position `p` on make up,
/// when `number` and `url` were found before; `first` while no member was.
pub open spec fn members(
    s: Seq<char>,
    p: int,
    first: bool,
    number: Option<int>,
    url: Option<Seq<char>>,
) -> Result<forge::IssueView, Seq<char>>
    decreases s.len() - p,
{
    let u = past_white(s, p);
    if u >= s.len() {
        malformed(s)
    } else if s[u] == '}' {
        issue_of(number, url, place_of(s, u + 1), object_error(s))
    } else {
        let k = member_start(s, u, first);
        if k >= s.len() || s[k] != '"' {
            malformed(s)
        } else {
            match json_text(laid_out(s, k)) {
                Err(e) => Err(e),
                Ok((key, rest)) => {
                    let w = past_white(s, left_at(s.len(), rest));
                    if left_at(s.len(), rest) <= p {
                        malformed(s)
                    } else if role(key, number is Some, url is Some) == Role::Duplicate {
                        Err(
                            "duplicate field `"@ + key + "`"@ + place_of(
                                s,
                                if w < s.len() && s[w] == '}' {
                                    w + 1
                                } else {
                                    w
                                },
                            ),
                        )
                    } else if w >= s.len() || s[w] != ':' {
                        malformed(s)
                    } else {
                        match role(key, number is Some, url is Some) {
                            Role::Number => match json_number(laid_out(s, w + 1)) {
                                Err(e) => Err(e),
                                Ok((n, rest)) => if left_at(s.len(), rest) <= p {
                                    malformed(s)
                                } else {
                                    members(s, left_at(s.len(), rest), false, Some(n), url)
                                },
                            },
                            Role::Url => match json_text(laid_out(s, w + 1)) {
                                Err(e) => Err(e),
                                Ok((t, rest)) => if left_at(s.len(), rest) <= p {
                                    malformed(s)
                                } else {
                                    members(s, left_at(s.len(), rest), false, number, Some(t))
                                },
                            },
                            _ => match json_skip(laid_out(s, w + 1)) {
                                Err(e) => Err(e),
                                Ok(rest) => if left_at(s.len(), rest) <= p {
                                    malformed(s)
                                } else {
                                    members(s, left_at(s.len(), rest), false, number, url)
                                },
                            },
                        }
                    }
                },
            }
        }
    }
}

// ---------------------------------------------------------------------------
// Documents
// ---------------------------------------------------------------------------

/// What an error on a pair says of an issue.
pub open spec fn pair_error(fault: FaultView) -> Seq<char> {
    let at = place_text(fault.line as nat, fault.column as nat);
    let tail = ", expected a tuple of size 2"@ + at;
    let n = fault.text.len() - tail.len();
    if n < 0 || fault.text.skip(n) != tail {
        fault.text
    } else if text::starts_with(fault.text, "invalid length "@) {
        fault.text.take(n) + ", expected struct Created with 2 elements"@ + at
    } else {
        fault.text.take(n) + ", expected struct Created"@ + at
    }
}

/// An error of reading a pair says the same of the structure that the pair
/// stands for.
pub proof fn law_pair_errors_name_the_structure(head: Seq<char>, line: int, column: int)
    requires
        0 <= line,
        0 <= column,
    ensures
        ({
            let at = " at line "@ + text::decimal(line as nat) + " column "@ + text::decimal(
                column as nat,
            );
            let fault = FaultView { text: head + (", expected a tuple of size 2"@ + at), line, column };
            pair_error(fault) == head + (if text::starts_with(fault.text, "invalid length "@) {
                ", expected struct Created with 2 elements"@
            } else {
                ", expected struct Created"@
            }) + at
        }),
{
    let at = place_text(line as nat, column as nat);
    let tail = ", expected a tuple of size 2"@ + at;
    let said = head + tail;
    assert(said.skip(head.len() as int) == tail);
    assert(said.take(head.len() as int) == head);
}

/// The issue of a pair of number and URL, or what the error on it says.
pub open spec fn issue_of_pair(pair: Result<(int, Seq<char>), FaultView>) -> Result<
    forge::IssueView,
    Seq<char>,
> {
    match pair {
        Ok((n, u)) => Ok(forge::IssueView { number: n, url: u }),
        Err(fault) => Err(pair_error(fault)),
    }
}

/// The issue that a document describes, or why it describes none.
pub open spec fn described(s: Seq<char>) -> Result<forge::IssueView, Seq<char>> {
    let open = past_white(s, 0);
    if open < s.len() && s[open] == '{' {
        members(s, open + 1, true, None, None)
    } else {
        issue_of_pair(json_pair(s))
    }
}

/// The issue that a document describes, or the fault in it.
pub open spec fn created_in(s: Seq<char>) -> Result<forge::IssueView, forge::ForgeFault> {
    match described(s) {
        Ok(issue) => Ok(issue),
        Err(e) => Err(forge::ForgeFault::Parse(e)),
    }
}

/// The issue of a pair of number and URL.
///
/// # Errors
///
/// Says what an issue is made of where `pair` says what a pair is.
pub fn issue_from_pair(pair: Result<(u64, String), JsonFault>) -> (r: Result<IssueCreated, String>)
    ensures
        issue_view(r) == issue_of_pair(pair_view(pair)),
{
    let fault = match pair {
        Ok((number, url)) => {
            return Ok(IssueCreated { number, url });
        },
        Err(fault) => fault,
    };
    let at = place(fault.line, fault.column);
    let mut tail = ", expected a tuple of size 2".to_owned();
    tail.append(at.as_str());
    let cs = text::chars_of(fault.text.as_str());
    let end = text::chars_of(tail.as_str());
    if cs.len() < end.len() {
        return Err(fault.text);
    }
    let n: usize = cs.len() - end.len();
    assert(cs@.skip(n as int) == cs@.subrange(n as int, n + end@.len()));
    if !text::stands_at(&cs, &end, n) {
        return Err(fault.text);
    }
    let mut out = text::string_of(&text::slice_of(&cs, 0, n));
    assert(out@ == cs@.take(n as int));
    if text::stands_at(&cs, &text::chars_of("invalid length "), 0) {
        out.append(", expected struct Created with 2 elements");
    } else {
        out.append(", expected struct Created");
    }
    out.append(at.as_str());
    Err(out)
}

/// What is said of a text whose members cannot be told apart.
fn malformed_text(text: &str) -> (r: Result<IssueCreated, String>)
    ensures
        issue_view(r) == malformed(text@),
{
    match object_fault(text) {
        Some(e) => Err(e),
        None => Err("expected an object".to_owned()),
    }
}

/// Where what is left of `cs` starts, when that is behind `p`.
fn resume(cs: &Vec<char>, p: usize, rest: &str) -> (r: Option<usize>)
    requires
        p <= cs.len(),
    ensures
        match r {
            Some(q) => q == left_at(cs@.len(), rest@) && p < q <= cs.len(),
            None => left_at(cs@.len(), rest@) <= p,
        },
{
    let n: usize = text::chars_of(rest).len();
    if n >= cs.len() - p {
        None
    } else {
        Some(cs.len() - n)
    }
}

/// The issue that the members of an object make up.
fn read_members(text: &str, cs: &Vec<char>, open: usize) -> (r: Result<IssueCreated, String>)
    requires
        cs@ == text@,
        open < cs.len(),
        cs@[open as int] == '{',
        text::byte_len(cs@) <= usize::MAX,
    ensures
        issue_view(r) == members(text@, open + 1, true, None, None),
{
    let ghost goal = members(text@, open + 1, true, None, None);
    let mut p: usize = open + 1;
    let mut first = true;
    let mut number: Option<u64> = None;
    let mut url: Option<String> = None;
    loop
        invariant
            cs@ == text@,
            open < p <= cs.len(),
            cs@[open as int] == '{',
            text::byte_len(cs@) <= usize::MAX,
            goal == members(text@, open + 1, true, None, None),
            goal == members(
                text@,
                p as int,
                first,
                number_option(number),
                matcher::text_option(url),
            ),
        decreases cs.len() - p,
    {
        let u = skip_white(cs, p);
        if u >= cs.len() {
            return malformed_text(text);
        }
        if cs[u] == '}' {
            let (line, column) = position(cs, open, u + 1);
            return issue_from_members(number, url, line, column, object_fault(text));
        }
        let k: usize = if first {
            u
        } else if cs[u] == ',' {
            skip_white(cs, u + 1)
        } else {
            cs.len()
        };
        if k >= cs.len() || cs[k] != '"' {
            return malformed_text(text);
        }
        let (key, rest) = match read_text(lay_out(cs, k).as_str()) {
            Err(e) => {
                return Err(e);
            },
            Ok(read) => read,
        };
        let v = match resume(cs, p, rest.as_str()) {
            None => {
                return malformed_text(text);
            },
            Some(v) => v,
        };
        let w = skip_white(cs, v);
        let member = role_of(key.as_str(), number.is_some(), url.is_some());
        if let Role::Duplicate = member {
            let at: usize = if w < cs.len() && cs[w] == '}' {
                w + 1
            } else {
                w
            };
            let (line, column) = position(cs, open, at);
            let mut e = "duplicate field `".to_owned();
            e.append(key.as_str());
            e.append("`");
            e.append(place(line, column).as_str());
            return Err(e);
        }
        if w >= cs.len() || cs[w] != ':' {
            return malformed_text(text);
        }
        let value = lay_out(cs, w + 1);
        let left = match member {
            Role::Number => match read_number(value.as_str()) {
                Err(e) => {
                    return Err(e);
                },
                Ok((n, rest)) => {
                    number = Some(n);
                    rest
                },
            },
            Role::Url => match read_text(value.as_str()) {
                Err(e) => {
                    return Err(e);
                },
                Ok((t, rest)) => {
                    url = Some(t);
                    rest
                },
            },
            _ => match skip_value(value.as_str()) {
                Err(e) => {
                    return Err(e);
                },
                Ok(rest) => rest,
            },
        };
        match resume(cs, p, left.as_str()) {
            None => {
                return malformed_text(text);
            },
            Some(q) => {
                p = q;
            },
        }
        first = false;
    }
}

/// The issue that a document describes.
fn read_issue(text: &str) -> (r: Result<IssueCreated, String>)
    ensures
        issue_view(r) == described(text@),
{
    let cs = text::chars_of(text);
    let open = skip_white(&cs, 0);
    if open < cs.len() && cs[open] == '{' {
        read_members(text, &cs, open)
    } else {
        issue_from_pair(read_pair(text))
    }
}

/// Parses `gh issue create --json number,url` output.
///
/// # Errors
///
/// Returns [`ForgeError::Parse`] when the output does not describe an issue.
pub fn parse_created(stdout: &str) -> (r: Result<IssueCreated, ForgeError>)
    ensures
        forge::issue_result(r) == created_in(stdout@),
{
    match read_issue(stdout) {
        Ok(issue) => Ok(issue),
        Err(e) => Err(ForgeError::Parse(e)),
    }
}

} // verus!
