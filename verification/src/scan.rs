//! Scanning: parsing files with tree-sitter and producing findings for marker
//! comments.
//!
//! The scanner never writes anything. All findings carry the byte ranges
//! needed to later remove comments.
//!
//! A comment node may span several lines. It is split into "visual" comments
//! at blank lines (blank-only markers like a bare `//` are a boundary and are
//! dropped), and every comment that matches a category becomes its own
//! finding: attached neighbours travel with the finding whose match they
//! surround, so a `// TODO` followed by an explanatory line is removed as a
//! pair while two adjacent `// TODO`s stay independent.

use crate::language;
use crate::language::{Grammar, Language};
use crate::matcher;
use crate::matcher::{MatchConfig, MatchConfigError, Matcher};
use crate::model;
use crate::model::{Comment, CommentRun, Finding, Selection};
use crate::order;
use crate::order::{Rank, Ranked};
use crate::path;
use crate::text;
use vstd::prelude::*;
use vstd::string::*;

verus! {

// ---------------------------------------------------------------------------
// Syntax trees
// ---------------------------------------------------------------------------

/// A syntax tree of the `tree-sitter` crate.
#[verifier::external_type_specification]
#[verifier::external_body]
pub struct ExTree(tree_sitter::Tree);

/// The mathematical content of a [`SyntaxNode`].
#[verifier::ext_equal]
pub struct NodeView {
    pub kind: Seq<char>,
    pub start: int,
    pub end: int,
    pub row: int,
}

/// What the scanner reads of a syntax-tree node.
#[derive(Debug, PartialEq, Eq)]
pub struct SyntaxNode {
    /// The node's kind, e.g. `line_comment`.
    pub kind: String,
    /// Byte offset of the node's first character.
    pub start: usize,
    /// Byte offset after the node's last character.
    pub end: usize,
    /// 0-based line of the node's first character.
    pub row: usize,
}

impl View for SyntaxNode {
    type V = NodeView;

    open spec fn view(&self) -> NodeView {
        NodeView {
            kind: self.kind@,
            start: self.start as int,
            end: self.end as int,
            row: self.row as int,
        }
    }
}

/// The nodes of a syntax tree, each before its children and after its earlier
/// siblings.
pub uninterp spec fn tree_nodes(tree: tree_sitter::Tree) -> Seq<NodeView>;

/// The nodes of the syntax tree that a grammar gives a source, or `None` when
/// the source cannot be parsed.
pub uninterp spec fn parsed_nodes(grammar: Grammar, source: Seq<char>) -> Option<Seq<NodeView>>;

/// The largest source, in bytes, that is handed to the parser: it counts
/// bytes in 32 bits, where the largest number stands for an open end.
pub const MAX_SOURCE_BYTES: usize = 0xFFFF_FFFE;

/// Parses a source; calls `tree_sitter::Parser::set_language` and
/// `tree_sitter::Parser::parse` with a fresh parser, so the tree depends on
/// the grammar and the source alone. The parser counts bytes in 32 bits.
#[verifier::external_body]
fn parse_tree(grammar: Grammar, source: &str) -> (r: Option<tree_sitter::Tree>)
    requires
        text::byte_len(source@) <= MAX_SOURCE_BYTES,
    ensures
        match r {
            Some(tree) => parsed_nodes(grammar, source@) == Some(tree_nodes(tree)),
            None => parsed_nodes(grammar, source@) is None,
        },
{
    let language = match grammar {
        Grammar::Rust => tree_sitter_rust::LANGUAGE,
        Grammar::Python => tree_sitter_python::LANGUAGE,
        Grammar::C => tree_sitter_c::LANGUAGE,
        Grammar::Cpp => tree_sitter_cpp::LANGUAGE,
        Grammar::Go => tree_sitter_go::LANGUAGE,
        Grammar::TypeScript => tree_sitter_typescript::LANGUAGE_TYPESCRIPT,
        Grammar::Tsx => tree_sitter_typescript::LANGUAGE_TSX,
        Grammar::Bash => tree_sitter_bash::LANGUAGE,
        Grammar::Json => tree_sitter_json::LANGUAGE,
    };
    let mut parser = tree_sitter::Parser::new();
    parser.set_language(&language.into()).ok()?;
    parser.parse(source, None)
}

/// The number of nodes in a tree; calls `tree_sitter::Node::descendant_count`
/// on the root, which counts the root itself too.
#[verifier::external_body]
fn node_count(tree: &tree_sitter::Tree) -> (r: usize)
    ensures
        r == tree_nodes(*tree).len(),
{
    tree.root_node().descendant_count()
}

/// The node at place `i` of a tree; calls
/// `tree_sitter::TreeCursor::goto_descendant`, which counts nodes in the
/// order of [`tree_nodes`] with the root as the first, and reads the node's
/// kind, byte range and start row.
#[verifier::external_body]
fn node_at(tree: &tree_sitter::Tree, i: usize) -> (r: SyntaxNode)
    requires
        i < tree_nodes(*tree).len(),
    ensures
        r@ == tree_nodes(*tree)[i as int],
{
    let mut cursor = tree.walk();
    cursor.goto_descendant(i);
    let node = cursor.node();
    SyntaxNode {
        kind: node.kind().to_string(),
        start: node.start_byte(),
        end: node.end_byte(),
        row: node.start_position().row,
    }
}

// ---------------------------------------------------------------------------
// Visual comments
// ---------------------------------------------------------------------------

/// A text without leading `/`, `*` and `#` characters.
pub open spec fn drop_marks(s: Seq<char>) -> Seq<char>
    decreases s.len(),
{
    if s.len() > 0 && (s[0] == '/' || s[0] == '*' || s[0] == '#') {
        drop_marks(s.drop_first())
    } else {
        s
    }
}

/// Whether a comment line carries no visible content: blank, or only the
/// marker decoration (`//`, `/*`, `*`, `#`, ...).
pub open spec fn is_bare(line: Seq<char>) -> bool {
    text::is_blank(drop_marks(text::trim_both(line)))
}

/// Whether a comment line carries no visible content. Such lines separate
/// visual comments and are never part of a run.
fn is_visually_empty(line: &Vec<char>) -> (r: bool)
    ensures
        r == is_bare(line@),
{
    let trimmed = text::trim_chars(line);
    let mut i: usize = 0;
    assert(trimmed@.skip(0) == trimmed@);
    while i < trimmed.len() && (trimmed[i] == '/' || trimmed[i] == '*' || trimmed[i] == '#')
        invariant
            i <= trimmed.len(),
            drop_marks(trimmed@) == drop_marks(trimmed@.skip(i as int)),
        decreases trimmed.len() - i,
    {
        assert(trimmed@.skip(i as int).drop_first() == trimmed@.skip(i + 1));
        i += 1;
    }
    assert(trimmed@.subrange(i as int, trimmed.len() as int) == trimmed@.skip(i as int));
    text::blank(&text::slice_of(&trimmed, i, trimmed.len()))
}

/// The 0-based column of a character position, counting the bytes since the
/// start of its line.
fn source_column(cs: &Vec<char>, table: &Vec<usize>, i: usize) -> (r: usize)
    requires
        i <= cs.len(),
        text::is_byte_table(table@, cs@),
    ensures
        r == text::column_at(cs@, i as int),
{
    let mut k: usize = i;
    while k > 0 && cs[k - 1] != '\n'
        invariant
            k <= i <= cs.len(),
            text::is_byte_table(table@, cs@),
            table@[k as int] <= table@[i as int],
            text::column_at(cs@, i as int) == text::column_at(cs@, k as int) + (table@[i as int]
                - table@[k as int]),
        decreases k,
    {
        assert(cs@.take(k as int).drop_last() == cs@.take(k - 1));
        k -= 1;
    }
    table[i] - table[k]
}

/// The position of the first line feed in `i..e`, or `e`.
pub open spec fn line_end(s: Seq<char>, i: int, e: int) -> int
    decreases e - i,
{
    if i >= e || s[i] == '\n' {
        i
    } else {
        line_end(s, i + 1, e)
    }
}

/// The lines of the characters `i..e`, as ranges without line feeds; there is
/// always at least one.
pub open spec fn visual_lines(s: Seq<char>, i: int, e: int) -> Seq<(int, int)>
    decreases e - i,
    via visual_lines_decreases
{
    let n = line_end(s, i, e);
    if i < e && n < e {
        seq![(i, n)] + visual_lines(s, n + 1, e)
    } else {
        seq![(i, n)]
    }
}

#[via_fn]
proof fn visual_lines_decreases(s: Seq<char>, i: int, e: int) {
    lemma_line_end(s, i, e);
}

proof fn lemma_line_end(s: Seq<char>, i: int, e: int)
    ensures
        i <= e ==> i <= line_end(s, i, e) <= e,
        i > e ==> line_end(s, i, e) == i,
    decreases e - i,
{
    if i < e && s[i] != '\n' {
        lemma_line_end(s, i + 1, e);
    }
}

/// Lines stand one after another inside their range.
pub proof fn lemma_visual_lines(s: Seq<char>, i: int, e: int)
    requires
        0 <= i <= e <= s.len(),
    ensures
        1 <= visual_lines(s, i, e).len() <= e - i + 1,
        forall|k: int|
            0 <= k < visual_lines(s, i, e).len() ==> i <= (#[trigger] visual_lines(s, i, e)[k]).0
                <= visual_lines(s, i, e)[k].1 <= e,
        forall|k: int, l: int|
            0 <= k < l < visual_lines(s, i, e).len() ==> (#[trigger] visual_lines(s, i, e)[k]).1 < (
            #[trigger] visual_lines(s, i, e)[l]).0,
    decreases e - i,
{
    lemma_line_end(s, i, e);
    let n = line_end(s, i, e);
    let all = visual_lines(s, i, e);
    if i < e && n < e {
        lemma_visual_lines(s, n + 1, e);
        let rest = visual_lines(s, n + 1, e);
        assert forall|k: int| 0 <= k < all.len() implies i <= (#[trigger] all[k]).0 <= all[k].1
            <= e by {
            if k > 0 {
                assert(all[k] == rest[k - 1]);
            }
        }
        assert forall|k: int, l: int| 0 <= k < l < all.len() implies (#[trigger] all[k]).1 < (
        #[trigger] all[l]).0 by {
            assert(all[l] == rest[l - 1]);
            if k > 0 {
                assert(all[k] == rest[k - 1]);
            }
        }
    }
}

/// What the lines of a range are: they cover it but for the line feeds between
/// them, and hold none themselves.
proof fn lemma_visual_shape(s: Seq<char>, i: int, e: int)
    requires
        0 <= i <= e <= s.len(),
    ensures
        ({
            let ls = visual_lines(s, i, e);
            &&& ls.len() > 0
            &&& ls[0].0 == i
            &&& ls.last().1 == e
            &&& forall|k: int| 0 < k < ls.len() ==> (#[trigger] ls[k]).0 == ls[k - 1].1 + 1
            &&& forall|k: int| 0 <= k < ls.len() - 1 ==> s[(#[trigger] ls[k]).1] == '\n'
            &&& forall|k: int, j: int|
                0 <= k < ls.len() && (#[trigger] ls[k]).0 <= j < ls[k].1 ==> #[trigger] s[j] != '\n'
        }),
    decreases e - i,
{
    lemma_line_end(s, i, e);
    lemma_line_end_is(s, i, e);
    let n = line_end(s, i, e);
    let ls = visual_lines(s, i, e);
    if i < e && n < e {
        lemma_visual_shape(s, n + 1, e);
        let rest = visual_lines(s, n + 1, e);
        assert forall|k: int| 0 < k < ls.len() implies ls[k] == rest[k - 1] by {}
        assert(ls.last() == rest.last());
        assert forall|k: int| 0 < k < ls.len() implies (#[trigger] ls[k]).0 == ls[k - 1].1 + 1 by {
            if k > 1 {
                assert(rest[k - 1].0 == rest[k - 2].1 + 1);
            }
        }
    }
}

proof fn lemma_line_end_is(s: Seq<char>, i: int, e: int)
    requires
        i <= e,
    ensures
        line_end(s, i, e) < e ==> s[line_end(s, i, e)] == '\n',
        forall|j: int| i <= j < line_end(s, i, e) ==> #[trigger] s[j] != '\n',
    decreases e - i,
{
    if i < e && s[i] != '\n' {
        lemma_line_end_is(s, i + 1, e);
    }
}

/// How many line feeds stand before the end of line `y`, counted from the
/// start of line `x`.
proof fn lemma_line_feeds(s: Seq<char>, i: int, e: int, x: int, y: int)
    requires
        0 <= i <= e <= s.len(),
        0 <= x <= y < visual_lines(s, i, e).len(),
    ensures
        ({
            let ls = visual_lines(s, i, e);
            &&& ls[x].0 <= ls[y].1
            &&& text::newlines(s.subrange(ls[x].0, ls[y].1)) == y - x
        }),
    decreases y - x,
{
    let ls = visual_lines(s, i, e);
    let line = s.subrange(ls[y].0, ls[y].1);
    lemma_one_line(s, i, e, y);
    if x < y {
        lemma_line_feeds(s, i, e, x, y - 1);
        lemma_one_line(s, i, e, x);
        let head = s.subrange(ls[x].0, ls[y - 1].1);
        assert(head.push('\n').drop_last() == head);
        text::lemma_newlines_concat(head.push('\n'), line);
        assert(s.subrange(ls[x].0, ls[y].1) == head.push('\n') + line);
    }
}

/// A line holds no line feed, and one stands before it unless it is the first.
proof fn lemma_one_line(s: Seq<char>, i: int, e: int, y: int)
    requires
        0 <= i <= e <= s.len(),
        0 <= y < visual_lines(s, i, e).len(),
    ensures
        ({
            let ls = visual_lines(s, i, e);
            &&& i <= ls[y].0 <= ls[y].1 <= e
            &&& text::newlines(s.subrange(ls[y].0, ls[y].1)) == 0
            &&& y == 0 ==> ls[y].0 == i
            &&& y > 0 ==> ls[y].0 == ls[y - 1].1 + 1 && s[ls[y - 1].1] == '\n' && ls[y
                - 1].1 < e
        }),
{
    let ls = visual_lines(s, i, e);
    lemma_visual_lines(s, i, e);
    lemma_visual_shape(s, i, e);
    let line = s.subrange(ls[y].0, ls[y].1);
    assert forall|k: int| 0 <= k < line.len() implies line[k] != '\n' by {
        assert(line[k] == s[ls[y].0 + k]);
    }
    text::lemma_no_newlines(line);
}

/// The end of a comment's characters `a..b` without a final line feed.
pub open spec fn visible_end(s: Seq<char>, a: int, b: int) -> int {
    if a < b && s[b - 1] == '\n' {
        b - 1
    } else {
        b
    }
}

/// Which of the lines `ls` carry no visible content.
pub open spec fn bare_lines(s: Seq<char>, ls: Seq<(int, int)>) -> Seq<bool> {
    Seq::new(ls.len(), |k: int| is_bare(s.subrange(ls[k].0, ls[k].1)))
}

/// The last line of the block of visible lines that holds line `k`.
pub open spec fn block_end(bare: Seq<bool>, k: int) -> int
    decreases bare.len() - k,
{
    if k + 1 < bare.len() && !bare[k + 1] {
        block_end(bare, k + 1)
    } else {
        k
    }
}

/// The blocks of visible lines from line `k` on, as inclusive ranges.
pub open spec fn blocks(bare: Seq<bool>, k: int) -> Seq<(int, int)>
    decreases bare.len() - k,
    via blocks_decreases
{
    if k >= bare.len() {
        Seq::empty()
    } else if bare[k] {
        blocks(bare, k + 1)
    } else {
        seq![(k, block_end(bare, k))] + blocks(bare, block_end(bare, k) + 1)
    }
}

#[via_fn]
proof fn blocks_decreases(bare: Seq<bool>, k: int) {
    lemma_block_end(bare, k);
}

proof fn lemma_block_end(bare: Seq<bool>, k: int)
    ensures
        k <= block_end(bare, k),
        k < bare.len() ==> block_end(bare, k) < bare.len(),
    decreases bare.len() - k,
{
    if k + 1 < bare.len() && !bare[k + 1] {
        lemma_block_end(bare, k + 1);
    }
}

/// What the blocks are: maximal ranges of lines that are not bare, which
/// together hold all of those.
proof fn lemma_blocks(bare: Seq<bool>, k: int)
    requires
        0 <= k <= bare.len(),
    ensures
        ({
            let gs = blocks(bare, k);
            &&& forall|i: int|
                0 <= i < gs.len() ==> k <= (#[trigger] gs[i]).0 <= gs[i].1 < bare.len()
            &&& forall|i: int, j: int|
                0 <= i < gs.len() && (#[trigger] gs[i]).0 <= j <= gs[i].1 ==> !#[trigger] bare[j]
            &&& forall|i: int| 0 <= i < gs.len() && (#[trigger] gs[i]).0 > k ==> bare[gs[i].0 - 1]
            &&& forall|i: int|
                0 <= i < gs.len() && (#[trigger] gs[i]).1 + 1 < bare.len() ==> bare[gs[i].1 + 1]
        }),
    decreases bare.len() - k,
{
    if k < bare.len() {
        let gs = blocks(bare, k);
        if bare[k] {
            lemma_blocks(bare, k + 1);
            assert(gs == blocks(bare, k + 1));
            assert forall|i: int| 0 <= i < gs.len() && (#[trigger] gs[i]).0 > k implies bare[gs[i].0
                - 1] by {
                assert(k + 1 <= blocks(bare, k + 1)[i].0);
            }
        } else {
            lemma_block_end(bare, k);
            lemma_block_end_is(bare, k);
            let end = block_end(bare, k);
            lemma_blocks(bare, end + 1);
            let rest = blocks(bare, end + 1);
            assert(gs == seq![(k, end)] + rest);
            assert(gs[0] == (k, end));
            assert forall|i: int| 0 < i < gs.len() implies #[trigger] gs[i] == rest[i - 1] by {}
            assert forall|i: int| 0 <= i < gs.len() && (#[trigger] gs[i]).0 > k implies bare[gs[i].0
                - 1] by {
                if gs[i].0 == end + 1 {
                    assert(!bare[end + 1]);
                }
            }
        }
    }
}

proof fn lemma_block_end_is(bare: Seq<bool>, k: int)
    requires
        0 <= k < bare.len(),
        !bare[k],
    ensures
        forall|j: int| k <= j <= block_end(bare, k) ==> !#[trigger] bare[j],
        block_end(bare, k) + 1 < bare.len() ==> bare[block_end(bare, k) + 1],
    decreases bare.len() - k,
{
    lemma_block_end(bare, k);
    if k + 1 < bare.len() && !bare[k + 1] {
        lemma_block_end_is(bare, k + 1);
    }
}

/// The block that holds line `j`, which is not bare.
proof fn lemma_block_of(bare: Seq<bool>, k: int, j: int) -> (i: int)
    requires
        0 <= k <= j < bare.len(),
        !bare[j],
    ensures
        0 <= i < blocks(bare, k).len(),
        blocks(bare, k)[i].0 <= j <= blocks(bare, k)[i].1,
    decreases bare.len() - k,
{
    if bare[k] {
        lemma_block_of(bare, k + 1, j)
    } else {
        lemma_block_end(bare, k);
        let end = block_end(bare, k);
        if j <= end {
            0
        } else {
            let i = lemma_block_of(bare, end + 1, j);
            i + 1
        }
    }
}

/// Where a comment comes from.
pub struct Origin {
    pub path: Seq<char>,
    pub language: Seq<char>,
}

/// The comment made of the lines `x..=y` of a node whose first line is `row`.
pub open spec fn block_comment(
    o: Origin,
    s: Seq<char>,
    ls: Seq<(int, int)>,
    row: int,
    x: int,
    y: int,
) -> model::CommentView {
    model::CommentView {
        path: o.path,
        line: row + x + 1,
        end_line: row + y + 1,
        column: text::column_at(s, ls[x].0),
        start: text::byte_len(s.take(ls[x].0)) as int,
        end: text::byte_len(s.take(ls[y].1)) as int,
        text: s.subrange(ls[x].0, ls[y].1),
        language: o.language,
    }
}

/// The visual comments of a node that covers the characters `a..b`.
pub open spec fn visual_comments(o: Origin, s: Seq<char>, row: int, a: int, b: int) -> Seq<
    model::CommentView,
> {
    let ls = visual_lines(s, a, visible_end(s, a, b));
    blocks(bare_lines(s, ls), 0).map_values(
        |g: (int, int)| block_comment(o, s, ls, row, g.0, g.1),
    )
}

/// A line is bare when whitespace surrounds nothing but the characters `/`,
/// `*` and `#`, if there are any.
pub proof fn law_bare_lines_have_no_text(line: Seq<char>)
    ensures
        is_bare(line) <==> exists|x: int, y: int| #[trigger] is_decoration(line, x, y),
{
    let (i, j) = text::lemma_trim_both_shape(line);
    let core = text::trim_both(line);
    let rest = drop_marks(core);
    let m = lemma_drop_marks(core);
    if is_bare(line) {
        assert(rest.len() == 0) by {
            if rest.len() > 0 {
                assert(rest.last() == core.last());
                assert(text::is_white(rest[rest.len() - 1]));
            }
        }
        assert forall|k: int| i <= k < j implies line[k] == '/' || line[k] == '*' || line[k]
            == '#' by {
            assert(core[k - i] == line[k]);
        }
        assert forall|k: int| 0 <= k < i || j <= k < line.len() implies text::is_white(
            #[trigger] line[k],
        ) by {
            if k < i {
                assert(line.take(i)[k] == line[k]);
            } else {
                assert(line.skip(j)[k - j] == line[k]);
            }
        }
        assert(is_decoration(line, i, j));
    }
    if exists|x: int, y: int| is_decoration(line, x, y) {
        let (x, y) = choose|x: int, y: int| is_decoration(line, x, y);
        assert forall|k: int| 0 <= k < rest.len() implies text::is_white(#[trigger] rest[k]) by {
            let at = i + m + k;
            assert(rest[k] == line[at]);
            assert(rest[0] == line[i + m]);
            assert(rest[rest.len() - 1] == line[j - 1]);
            if x <= i + m < y {
                assert(rest[0] == '/' || rest[0] == '*' || rest[0] == '#');
            }
            if core.len() > 0 {
                assert(core[0] == line[i]);
                assert(!text::is_white(line[i]));
                assert(!text::is_white(line[j - 1]));
            }
        }
    }
}

/// Whether a line is whitespace but for the characters `x..y`, which are `/`,
/// `*` or `#`.
pub open spec fn is_decoration(line: Seq<char>, x: int, y: int) -> bool {
    &&& 0 <= x <= y <= line.len()
    &&& forall|k: int| 0 <= k < x || y <= k < line.len() ==> text::is_white(#[trigger] line[k])
    &&& forall|k: int|
        x <= k < y ==> (#[trigger] line[k]) == '/' || line[k] == '*' || line[k] == '#'
}

/// How many characters [`drop_marks`] takes.
proof fn lemma_drop_marks(s: Seq<char>) -> (m: int)
    ensures
        0 <= m <= s.len(),
        drop_marks(s) == s.skip(m),
        forall|k: int| 0 <= k < m ==> (#[trigger] s[k]) == '/' || s[k] == '*' || s[k] == '#',
        m < s.len() ==> s[m] != '/' && s[m] != '*' && s[m] != '#',
    decreases s.len(),
{
    if s.len() > 0 && (s[0] == '/' || s[0] == '*' || s[0] == '#') {
        let m = lemma_drop_marks(s.drop_first());
        assert(s.drop_first().skip(m) == s.skip(m + 1));
        assert forall|k: int| 0 <= k < m + 1 implies (#[trigger] s[k]) == '/' || s[k] == '*' || s[k]
            == '#' by {
            if k > 0 {
                assert(s.drop_first()[k - 1] == s[k]);
            }
        }
        if m < s.drop_first().len() {
            assert(s.drop_first()[m] == s[m + 1]);
        }
        m + 1
    } else {
        assert(s.skip(0) == s);
        0
    }
}

/// One line of a comment node.
struct VisualLine {
    start: usize,
    end: usize,
    empty: bool,
}

/// The ranges of a list of lines.
spec fn line_ranges(v: Seq<VisualLine>) -> Seq<(int, int)> {
    v.map_values(|l: VisualLine| (l.start as int, l.end as int))
}

/// The lines of the characters `a..e`.
fn split_visual(cs: &Vec<char>, a: usize, e: usize) -> (r: Vec<VisualLine>)
    requires
        a <= e <= cs.len(),
    ensures
        line_ranges(r@) == visual_lines(cs@, a as int, e as int),
        r@.map_values(|l: VisualLine| l.empty) == bare_lines(
            cs@,
            visual_lines(cs@, a as int, e as int),
        ),
{
    let mut out: Vec<VisualLine> = Vec::new();
    let ghost all = visual_lines(cs@, a as int, e as int);
    let mut i: usize = a;
    let mut more = true;
    assert(line_ranges(out@) + visual_lines(cs@, i as int, e as int) == all);
    while more
        invariant
            a <= i <= e <= cs.len(),
            all == visual_lines(cs@, a as int, e as int),
            more ==> line_ranges(out@) + visual_lines(cs@, i as int, e as int) == all,
            !more ==> line_ranges(out@) == all,
            forall|k: int|
                0 <= k < out@.len() ==> (#[trigger] out@[k]).empty == is_bare(
                    cs@.subrange(out@[k].start as int, out@[k].end as int),
                ) && out@[k].start <= out@[k].end <= cs.len(),
        decreases (if more { e - i + 1 } else { 0 }),
    {
        let mut n: usize = i;
        while n < e && cs[n] != '\n'
            invariant
                i <= n <= e <= cs.len(),
                line_end(cs@, i as int, e as int) == line_end(cs@, n as int, e as int),
            decreases e - n,
        {
            n += 1;
        }
        let line = text::slice_of(cs, i, n);
        let ghost before = line_ranges(out@);
        let ghost one = (i as int, n as int);
        out.push(VisualLine { start: i, end: n, empty: is_visually_empty(&line) });
        proof {
            assert(line_ranges(out@) == before.push(one));
        }
        if n < e {
            proof {
                let rest = visual_lines(cs@, n + 1, e as int);
                assert(before + (seq![one] + rest) == before.push(one) + rest);
            }
            i = n + 1;
        } else {
            assert(before + seq![one] == before.push(one));
            more = false;
        }
    }
    proof {
        let flags = out@.map_values(|l: VisualLine| l.empty);
        assert(out@.len() == all.len()) by {
            assert(line_ranges(out@).len() == all.len());
        }
        assert forall|k: int| 0 <= k < flags.len() implies #[trigger] flags[k] == bare_lines(
            cs@,
            all,
        )[k] by {
            assert(line_ranges(out@)[k] == all[k]);
            assert(out@[k].empty == is_bare(
                cs@.subrange(out@[k].start as int, out@[k].end as int),
            ));
        }
        assert(flags == bare_lines(cs@, all));
    }
    out
}

/// Splits the comment node that covers the characters `a..b` into "visual"
/// comments.
///
/// Blank lines within the node are boundaries: the entries before and after
/// them are reported separately (and, being separated by a line that no entry
/// owns, they never group into a single run). A node whose *entire* content
/// is blank (e.g. a bare `//`) produces no entry at all.
fn split_comment_node(
    path: &str,
    language: &str,
    cs: &Vec<char>,
    table: &Vec<usize>,
    row: usize,
    a: usize,
    b: usize,
) -> (r: Vec<Comment>)
    requires
        a <= b <= cs.len(),
        row + (b - a) <= MAX_SOURCE_BYTES,
        text::is_byte_table(table@, cs@),
    ensures
        order::views(r@) == visual_comments(
            Origin { path: path@, language: language@ },
            cs@,
            row as int,
            a as int,
            b as int,
        ),
{
    let e: usize = if a < b && cs[b - 1] == '\n' {
        b - 1
    } else {
        b
    };
    let lines = split_visual(cs, a, e);
    let ghost o = Origin { path: path@, language: language@ };
    let ghost ls = visual_lines(cs@, a as int, e as int);
    let ghost bare = bare_lines(cs@, ls);
    let ghost flags = lines@.map_values(|l: VisualLine| l.empty);
    let ghost make = |g: (int, int)| block_comment(o, cs@, ls, row as int, g.0, g.1);
    proof {
        lemma_visual_lines(cs@, a as int, e as int);
        assert(line_ranges(lines@).len() == ls.len());
    }
    let mut out: Vec<Comment> = Vec::new();
    let mut start: usize = 0;
    assert(order::views(out@) + blocks(bare, 0).map_values(make) == blocks(bare, 0).map_values(
        make,
    ));
    while start < lines.len()
        invariant
            start <= lines.len(),
            lines@.len() == ls.len(),
            row + lines@.len() <= MAX_SOURCE_BYTES + 1,
            text::is_byte_table(table@, cs@),
            o == (Origin { path: path@, language: language@ }),
            flags == lines@.map_values(|l: VisualLine| l.empty),
            flags == bare,
            line_ranges(lines@) == ls,
            make == (|g: (int, int)| block_comment(o, cs@, ls, row as int, g.0, g.1)),
            forall|k: int| 0 <= k < ls.len() ==> (#[trigger] ls[k]).0 <= ls[k].1 <= cs.len(),
            forall|k: int, l: int|
                0 <= k < l < ls.len() ==> (#[trigger] ls[k]).1 < (#[trigger] ls[l]).0,
            forall|k: int| 0 <= k < ls.len() ==> 0 <= (#[trigger] ls[k]).0,
            order::views(out@) + blocks(bare, start as int).map_values(make) == blocks(
                bare,
                0,
            ).map_values(make),
        decreases lines.len() - start,
    {
        assert(flags[start as int] == lines@[start as int].empty);
        if lines[start].empty {
            start += 1;
        } else {
            let mut end: usize = start;
            let mut more = end + 1 < lines.len() && !lines[end + 1].empty;
            while more
                invariant
                    start <= end < lines.len(),
                    flags == lines@.map_values(|l: VisualLine| l.empty),
                    flags == bare,
                    more == (end + 1 < bare.len() && !bare[end + 1]),
                    block_end(bare, start as int) == block_end(bare, end as int),
                decreases lines.len() - end,
            {
                end += 1;
                assert(end + 1 < lines.len() ==> flags[end + 1] == lines@[end + 1].empty);
                more = end + 1 < lines.len() && !lines[end + 1].empty;
            }
            proof {
                assert(line_ranges(lines@)[start as int] == ls[start as int]);
                assert(line_ranges(lines@)[end as int] == ls[end as int]);
                assert(ls[start as int].0 <= ls[end as int].1);
            }
            let from: usize = lines[start].start;
            let to: usize = lines[end].end;
            let comment = Comment {
                path: path.to_owned(),
                line: row + start + 1,
                end_line: row + end + 1,
                column: source_column(cs, table, from),
                byte_range: table[from]..table[to],
                text: text::string_of(&text::slice_of(cs, from, to)),
                language: language.to_owned(),
            };
            proof {
                let g = (start as int, end as int);
                let before = order::views(out@);
                let rest = blocks(bare, end + 1).map_values(make);
                assert(comment@ == make(g));
                assert(blocks(bare, start as int) == seq![g] + blocks(bare, end + 1));
                assert(blocks(bare, start as int).map_values(make) == seq![make(g)] + rest);
                assert(order::views(out@.push(comment)) == before.push(make(g)));
                assert(before + (seq![make(g)] + rest) == before.push(make(g)) + rest);
            }
            out.push(comment);
            start = end + 1;
        }
    }
    assert(order::views(out@) + Seq::<model::CommentView>::empty() == order::views(out@));
    assert(blocks(bare, start as int).map_values(make) == Seq::<model::CommentView>::empty());
    out
}

// ---------------------------------------------------------------------------
// The comments of a source
// ---------------------------------------------------------------------------

/// Whether a node is a range of `s`, on a line with no more lines before it
/// than there are bytes.
pub open spec fn fits(s: Seq<char>, n: NodeView) -> bool {
    &&& text::is_boundary(s, n.start)
    &&& text::is_boundary(s, n.end)
    &&& n.start <= n.end
    &&& n.row <= n.start
}

/// The visual comments of a node, when it is a comment node.
pub open spec fn node_comments(o: Origin, kinds: Seq<Seq<char>>, s: Seq<char>, n: NodeView) -> Seq<
    model::CommentView,
> {
    if kinds.contains(n.kind) {
        visual_comments(o, s, n.row, text::char_pos(s, n.start), text::char_pos(s, n.end))
    } else {
        Seq::empty()
    }
}

/// The visual comments of a list of nodes, in node order.
pub open spec fn all_comments(
    o: Origin,
    kinds: Seq<Seq<char>>,
    s: Seq<char>,
    nodes: Seq<NodeView>,
) -> Seq<model::CommentView>
    decreases nodes.len(),
{
    if nodes.len() == 0 {
        Seq::empty()
    } else {
        all_comments(o, kinds, s, nodes.drop_last()) + node_comments(o, kinds, s, nodes.last())
    }
}

/// Whether every comment node is a range of `s`.
pub open spec fn all_fit(kinds: Seq<Seq<char>>, s: Seq<char>, nodes: Seq<NodeView>) -> bool {
    forall|k: int|
        0 <= k < nodes.len() && kinds.contains((#[trigger] nodes[k]).kind) ==> fits(s, nodes[k])
}

/// The comments of a source whose syntax tree has `nodes`, by position; `None`
/// when a comment node is no range of the source.
pub open spec fn comments_of(
    o: Origin,
    kinds: Seq<Seq<char>>,
    s: Seq<char>,
    nodes: Seq<NodeView>,
) -> Option<Seq<model::CommentView>> {
    if all_fit(kinds, s, nodes) {
        Some(order::sorted::<Comment>(all_comments(o, kinds, s, nodes)))
    } else {
        None
    }
}

/// The lines that visual comment `i` of a node is made of, and what follows of
/// it.
proof fn lemma_visual_comment(o: Origin, s: Seq<char>, row: int, a: int, b: int, i: int) -> (g: (
    int,
    int,
))
    requires
        0 <= a <= b <= s.len(),
        0 <= i < visual_comments(o, s, row, a, b).len(),
    ensures
        ({
            let e = visible_end(s, a, b);
            let ls = visual_lines(s, a, e);
            let p = ls[g.0].0;
            let q = ls[g.1].1;
            let c = visual_comments(o, s, row, a, b)[i];
            &&& a <= p < q <= e <= b
            &&& 0 <= g.0 <= g.1 < ls.len()
            &&& g == blocks(bare_lines(s, ls), 0)[i]
            &&& c == block_comment(o, s, ls, row, g.0, g.1)
            &&& text::at_byte(s, p, c.start)
            &&& text::at_byte(s, q, c.end)
            &&& text::newlines(s.subrange(p, q)) == g.1 - g.0
            &&& text::newlines(s.subrange(a, p)) == g.0
        }),
{
    let e = visible_end(s, a, b);
    let ls = visual_lines(s, a, e);
    let bare = bare_lines(s, ls);
    let g = blocks(bare, 0)[i];
    lemma_blocks(bare, 0);
    lemma_visual_lines(s, a, e);
    lemma_line_feeds(s, a, e, g.0, g.1);
    let p = ls[g.0].0;
    let q = ls[g.1].1;
    lemma_feeds_before(s, a, e, g.0);
    assert(!bare[g.0]);
    assert(p < q) by {
        let line = s.subrange(ls[g.0].0, ls[g.0].1);
        if line.len() == 0 {
            law_bare_lines_have_no_text(line);
            assert(is_decoration(line, 0, 0));
        }
        if g.0 < g.1 {
            assert(ls[g.0].1 < ls[g.1].0);
        }
    }
    g
}

/// How many line feeds stand before line `x`.
proof fn lemma_feeds_before(s: Seq<char>, i: int, e: int, x: int)
    requires
        0 <= i <= e <= s.len(),
        0 <= x < visual_lines(s, i, e).len(),
    ensures
        text::newlines(s.subrange(i, visual_lines(s, i, e)[x].0)) == x,
{
    let ls = visual_lines(s, i, e);
    lemma_one_line(s, i, e, x);
    lemma_one_line(s, i, e, 0);
    if x == 0 {
        assert(s.subrange(i, i) == Seq::<char>::empty());
    } else {
        lemma_line_feeds(s, i, e, 0, x - 1);
        let head = s.subrange(i, ls[x - 1].1);
        assert(s.subrange(i, ls[x].0) == head.push('\n'));
        assert(head.push('\n').drop_last() == head);
    }
}

/// The comments of a list of nodes are those of its comment nodes.
proof fn lemma_comment_node(
    o: Origin,
    kinds: Seq<Seq<char>>,
    s: Seq<char>,
    nodes: Seq<NodeView>,
    c: model::CommentView,
) -> (at: (int, int))
    requires
        all_comments(o, kinds, s, nodes).contains(c),
    ensures
        0 <= at.0 < nodes.len(),
        kinds.contains(nodes[at.0].kind),
        0 <= at.1 < node_comments(o, kinds, s, nodes[at.0]).len(),
        node_comments(o, kinds, s, nodes[at.0])[at.1] == c,
    decreases nodes.len(),
{
    let all = all_comments(o, kinds, s, nodes);
    let i = choose|i: int| 0 <= i < all.len() && all[i] == c;
    let low = all_comments(o, kinds, s, nodes.drop_last());
    if i < low.len() {
        assert(low[i] == c);
        lemma_comment_node(o, kinds, s, nodes.drop_last(), c)
    } else {
        assert(node_comments(o, kinds, s, nodes.last())[i - low.len()] == c);
        (nodes.len() - 1, i - low.len())
    }
}

/// The comments of a node are among those of the list.
proof fn lemma_node_comments_in(
    o: Origin,
    kinds: Seq<Seq<char>>,
    s: Seq<char>,
    nodes: Seq<NodeView>,
    k: int,
    c: model::CommentView,
)
    requires
        0 <= k < nodes.len(),
        node_comments(o, kinds, s, nodes[k]).contains(c),
    ensures
        all_comments(o, kinds, s, nodes).contains(c),
    decreases nodes.len(),
{
    let all = all_comments(o, kinds, s, nodes);
    let low = all_comments(o, kinds, s, nodes.drop_last());
    if k < nodes.len() - 1 {
        lemma_node_comments_in(o, kinds, s, nodes.drop_last(), k, c);
        let i = choose|i: int| 0 <= i < low.len() && low[i] == c;
        assert(all[i] == c);
    } else {
        let more = node_comments(o, kinds, s, nodes.last());
        let i = choose|i: int| 0 <= i < more.len() && more[i] == c;
        assert(all[low.len() + i] == c);
    }
}

/// A node that is a range of `s` covers characters of it.
proof fn lemma_fits(s: Seq<char>, n: NodeView)
    requires
        fits(s, n),
    ensures
        text::at_byte(s, text::char_pos(s, n.start), n.start),
        text::at_byte(s, text::char_pos(s, n.end), n.end),
        0 <= text::char_pos(s, n.start) <= text::char_pos(s, n.end) <= s.len(),
{
    let a = text::char_pos(s, n.start);
    let b = text::char_pos(s, n.end);
    if b < a {
        text::lemma_byte_len_prefix(s, b, a);
    }
}

/// A comment of a source is what the source holds where the comment says it
/// is: its bytes are those of its text, its column counts the bytes since the
/// last line feed, its last line is as many lines further as its text has
/// line feeds, and it lies in a comment node, on the line that the node's
/// line and the line feeds between give.
pub proof fn law_comments_are_where_they_say(
    o: Origin,
    kinds: Seq<Seq<char>>,
    s: Seq<char>,
    nodes: Seq<NodeView>,
    c: model::CommentView,
)
    requires
        comments_of(o, kinds, s, nodes) matches Some(cs) && cs.contains(c),
    ensures
        c.path == o.path,
        c.language == o.language,
        text::is_boundary(s, c.start),
        text::is_boundary(s, c.end),
        c.start < c.end,
        text::byte_slice(s, c.start, c.end) == c.text,
        c.end_line == c.line + text::newlines(c.text),
        exists|b: int|
            {
                &&& 0 <= b <= text::char_pos(s, c.start)
                &&& b > 0 ==> s[b - 1] == '\n'
                &&& forall|k: int| b <= k < text::char_pos(s, c.start) ==> s[k] != '\n'
                &&& c.column == text::byte_len(
                    #[trigger] s.subrange(b, text::char_pos(s, c.start)),
                )
            },
        exists|k: int|
            {
                &&& 0 <= k < nodes.len()
                &&& kinds.contains((#[trigger] nodes[k]).kind)
                &&& nodes[k].start <= c.start < c.end <= nodes[k].end
                &&& c.line == nodes[k].row + 1 + text::newlines(
                    text::byte_slice(s, nodes[k].start, c.start),
                )
            },
{
    order::lemma_sorted_contains::<Comment>(all_comments(o, kinds, s, nodes), c);
    let (k, i) = lemma_comment_node(o, kinds, s, nodes, c);
    let node = nodes[k];
    assert(fits(s, node));
    lemma_fits(s, node);
    let a = text::char_pos(s, node.start);
    let b = text::char_pos(s, node.end);
    let g = lemma_visual_comment(o, s, node.row, a, b, i);
    let ls = visual_lines(s, a, visible_end(s, a, b));
    let p = ls[g.0].0;
    let q = ls[g.1].1;
    text::lemma_char_pos(s, p, c.start);
    text::lemma_char_pos(s, q, c.end);
    text::lemma_byte_len_prefix(s, p, q);
    if a < p {
        text::lemma_byte_len_prefix(s, a, p);
    }
    if q < b {
        text::lemma_byte_len_prefix(s, q, b);
    }
    let f = text::lemma_column(s, p);
    assert(c.column == text::byte_len(s.subrange(f, p)));
}

/// A line of a comment node, without the line feed that may end the node, is
/// part of a comment exactly when it is not bare, and two such lines that
/// follow each other are part of the same comment.
pub proof fn law_lines_with_text_are_comments(
    o: Origin,
    kinds: Seq<Seq<char>>,
    s: Seq<char>,
    nodes: Seq<NodeView>,
    k: int,
    u: int,
    v: int,
)
    requires
        comments_of(o, kinds, s, nodes) is Some,
        0 <= k < nodes.len(),
        kinds.contains(nodes[k].kind),
        is_line_in(s, nodes[k], u, v),
        !is_bare(s.subrange(u, v)),
    ensures
        exists|c: model::CommentView|
            {
                &&& #[trigger] comments_of(o, kinds, s, nodes)->0.contains(c)
                &&& text::char_pos(s, c.start) <= u <= v <= text::char_pos(s, c.end)
                &&& forall|w: int|
                    #[trigger] is_line_in(s, nodes[k], v + 1, w) && !is_bare(s.subrange(v + 1, w))
                        ==> w <= text::char_pos(s, c.end)
                &&& forall|w: int|
                    #[trigger] is_line_in(s, nodes[k], v + 1, w) && is_bare(s.subrange(v + 1, w))
                        ==> text::char_pos(s, c.end) == v
            },
{
    let node = nodes[k];
    lemma_fits(s, node);
    let a = text::char_pos(s, node.start);
    let b = text::char_pos(s, node.end);
    let e = visible_end(s, a, b);
    let ls = visual_lines(s, a, e);
    let x = lemma_line_index(s, a, e, u, v);
    let i = lemma_block_of(bare_lines(s, ls), 0, x);
    let all = node_comments(o, kinds, s, node);
    let c = all[i];
    let g = lemma_visual_comment(o, s, node.row, a, b, i);
    text::lemma_char_pos(s, ls[g.0].0, c.start);
    text::lemma_char_pos(s, ls[g.1].1, c.end);
    lemma_block_around(s, a, e, i, x);
    assert forall|w: int| #[trigger] is_line_in(s, node, v + 1, w) implies (if is_bare(
        s.subrange(v + 1, w),
    ) {
        ls[g.1].1 == v
    } else {
        w <= ls[g.1].1
    }) by {
        let y = lemma_line_index(s, a, e, v + 1, w);
        lemma_block_next(s, a, e, i, x, y);
    }
    assert(all.contains(c));
    lemma_node_comments_in(o, kinds, s, nodes, k, c);
    order::lemma_sorted_contains::<Comment>(all_comments(o, kinds, s, nodes), c);
    assert(comments_of(o, kinds, s, nodes)->0.contains(c));
}

/// A block begins before and ends after each of its lines.
proof fn lemma_block_around(s: Seq<char>, a: int, e: int, i: int, x: int)
    requires
        0 <= a <= e <= s.len(),
        0 <= i < blocks(bare_lines(s, visual_lines(s, a, e)), 0).len(),
        ({
            let g = blocks(bare_lines(s, visual_lines(s, a, e)), 0)[i];
            g.0 <= x <= g.1
        }),
    ensures
        ({
            let ls = visual_lines(s, a, e);
            let g = blocks(bare_lines(s, ls), 0)[i];
            ls[g.0].0 <= ls[x].0 <= ls[x].1 <= ls[g.1].1
        }),
{
    let ls = visual_lines(s, a, e);
    let g = blocks(bare_lines(s, ls), 0)[i];
    lemma_visual_lines(s, a, e);
    lemma_blocks(bare_lines(s, ls), 0);
    assert(ls[x].0 <= ls[x].1);
    if g.0 < x {
        assert(ls[g.0].1 < ls[x].0);
    }
    if x < g.1 {
        assert(ls[x].1 < ls[g.1].0);
    }
}

/// A block goes on with the line `y` after `x` unless that is bare.
proof fn lemma_block_next(s: Seq<char>, a: int, e: int, i: int, x: int, y: int)
    requires
        0 <= a <= e <= s.len(),
        0 <= i < blocks(bare_lines(s, visual_lines(s, a, e)), 0).len(),
        ({
            let g = blocks(bare_lines(s, visual_lines(s, a, e)), 0)[i];
            g.0 <= x <= g.1
        }),
        0 <= y < visual_lines(s, a, e).len(),
        visual_lines(s, a, e)[y].0 == visual_lines(s, a, e)[x].1 + 1,
    ensures
        ({
            let ls = visual_lines(s, a, e);
            let g = blocks(bare_lines(s, ls), 0)[i];
            if is_bare(s.subrange(ls[y].0, ls[y].1)) {
                ls[g.1].1 == ls[x].1
            } else {
                ls[y].1 <= ls[g.1].1
            }
        }),
{
    let ls = visual_lines(s, a, e);
    let bare = bare_lines(s, ls);
    let g = blocks(bare, 0)[i];
    lemma_visual_lines(s, a, e);
    lemma_blocks(bare, 0);
    if y > x + 1 {
        assert(ls[x].1 < ls[x + 1].0);
        assert(ls[x + 1].1 < ls[y].0);
    } else if y < x {
        assert(ls[y].1 < ls[x].0);
    }
    assert(y == x + 1);
    assert(bare[y] == is_bare(s.subrange(ls[y].0, ls[y].1)));
    if bare[y] {
        if g.1 >= y {
            assert(!bare[y]);
        }
    } else {
        if g.1 == x {
            assert(bare[g.1 + 1]);
        }
        lemma_block_around(s, a, e, i, y);
    }
}

/// No line of a comment is bare.
pub proof fn law_bare_lines_are_in_no_comment(
    o: Origin,
    kinds: Seq<Seq<char>>,
    s: Seq<char>,
    nodes: Seq<NodeView>,
    c: model::CommentView,
)
    requires
        comments_of(o, kinds, s, nodes) matches Some(cs) && cs.contains(c),
    ensures
        exists|k: int|
            {
                &&& 0 <= k < nodes.len()
                &&& kinds.contains((#[trigger] nodes[k]).kind)
                &&& nodes[k].start <= c.start < c.end <= nodes[k].end
                &&& forall|u: int, v: int| #[trigger]
                    is_line_in(s, nodes[k], u, v) && text::char_pos(s, c.start) <= u
                        && v <= text::char_pos(s, c.end) ==> !is_bare(s.subrange(u, v))
            },
{
    order::lemma_sorted_contains::<Comment>(all_comments(o, kinds, s, nodes), c);
    let (k, i) = lemma_comment_node(o, kinds, s, nodes, c);
    let node = nodes[k];
    assert(fits(s, node));
    lemma_fits(s, node);
    let a = text::char_pos(s, node.start);
    let b = text::char_pos(s, node.end);
    let e = visible_end(s, a, b);
    let ls = visual_lines(s, a, e);
    let bare = bare_lines(s, ls);
    let g = lemma_visual_comment(o, s, node.row, a, b, i);
    let p = ls[g.0].0;
    let q = ls[g.1].1;
    text::lemma_char_pos(s, p, c.start);
    text::lemma_char_pos(s, q, c.end);
    text::lemma_byte_len_prefix(s, p, q);
    if a < p {
        text::lemma_byte_len_prefix(s, a, p);
    }
    if q < b {
        text::lemma_byte_len_prefix(s, q, b);
    }
    lemma_visual_lines(s, a, e);
    lemma_blocks(bare, 0);
    assert forall|u: int, v: int| #[trigger] is_line_in(s, node, u, v) && p <= u && v
        <= q implies !is_bare(s.subrange(u, v)) by {
        let x = lemma_line_index(s, a, e, u, v);
        if x < g.0 {
            assert(ls[x].1 < ls[g.0].0);
        } else if x > g.1 {
            assert(ls[g.1].1 < ls[x].0);
        }
        assert(!bare[x]);
    }
}

/// Whether the characters `u..v` are a line of a node, without the line feed
/// that may end the node.
pub open spec fn is_line_in(s: Seq<char>, n: NodeView, u: int, v: int) -> bool {
    let a = text::char_pos(s, n.start);
    let b = text::char_pos(s, n.end);
    let e = if a < b && s[b - 1] == '\n' {
        b - 1
    } else {
        b
    };
    &&& a <= u <= v <= e
    &&& u > a ==> s[u - 1] == '\n'
    &&& v < e ==> s[v] == '\n'
    &&& forall|j: int| u <= j < v ==> #[trigger] s[j] != '\n'
}

/// Which of the lines `u..v` is.
proof fn lemma_line_index(s: Seq<char>, a: int, e: int, u: int, v: int) -> (x: int)
    requires
        0 <= a <= u <= v <= e <= s.len(),
        u > a ==> s[u - 1] == '\n',
        v < e ==> s[v] == '\n',
        forall|j: int| u <= j < v ==> #[trigger] s[j] != '\n',
    ensures
        0 <= x < visual_lines(s, a, e).len(),
        visual_lines(s, a, e)[x] == (u, v),
    decreases e - a,
{
    lemma_line_end(s, a, e);
    lemma_line_end_is(s, a, e);
    let n = line_end(s, a, e);
    if u == a {
        if n < v {
            assert(s[n] != '\n');
        }
        if v < n {
            assert(s[v] != '\n');
        }
        0
    } else {
        if u <= n {
            assert(s[u - 1] != '\n');
        }
        let x = lemma_line_index(s, n + 1, e, u, v);
        x + 1
    }
}

impl Ranked for Comment {
    open spec fn rank(a: model::CommentView, b: model::CommentView) -> int {
        a.start - b.start
    }

    proof fn rank_is_total(a: model::CommentView, b: model::CommentView) {
    }

    proof fn rank_is_transitive(
        a: model::CommentView,
        b: model::CommentView,
        c: model::CommentView,
    ) {
    }

    fn not_after(&self, other: &Self) -> (r: bool) {
        self.byte_range.start <= other.byte_range.start
    }
}

/// Appends `more` to `out`.
fn extend_comments(out: &mut Vec<Comment>, more: &Vec<Comment>)
    ensures
        order::views(final(out)@) == order::views(old(out)@) + order::views(more@),
{
    let ghost before = order::views(out@);
    let mut i: usize = 0;
    while i < more.len()
        invariant
            i <= more.len(),
            order::views(out@) == before + order::views(more@).take(i as int),
        decreases more.len() - i,
    {
        let ghost step = out@;
        let c = more[i].clone();
        out.push(c);
        proof {
            assert(order::views(out@) == order::views(step).push(c@));
            assert(order::views(more@)[i as int] == c@);
        }
        i += 1;
    }
    assert(order::views(more@).take(more.len() as int) == order::views(more@));
}

/// The comments of `source`, whose syntax tree has `nodes`, sorted by
/// position and split at blank lines; `None` when a comment node is no range
/// of `source`.
pub fn comments_in(
    path: &str,
    language: &str,
    kinds: &Vec<&'static str>,
    source: &str,
    nodes: &Vec<SyntaxNode>,
) -> (r: Option<Vec<Comment>>)
    requires
        text::byte_len(source@) <= MAX_SOURCE_BYTES,
    ensures
        ({
            let o = Origin { path: path@, language: language@ };
            let expected = comments_of(
                o,
                language::words(kinds@),
                source@,
                order::views(nodes@),
            );
            match r {
                Some(comments) => expected == Some(order::views(comments@)),
                None => expected is None,
            }
        }),
{
    let cs = text::chars_of(source);
    let table = text::byte_table(&cs);
    let ghost o = Origin { path: path@, language: language@ };
    let ghost names = language::words(kinds@);
    let ghost all = order::views(nodes@);
    proof {
        text::lemma_byte_len_prefix(cs@, 0, cs@.len() as int);
        assert(cs@.take(cs@.len() as int) == cs@);
    }
    let mut out: Vec<Comment> = Vec::new();
    let mut i: usize = 0;
    while i < nodes.len()
        invariant
            i <= nodes.len(),
            cs@ == source@,
            text::byte_len(cs@) <= MAX_SOURCE_BYTES,
            text::is_byte_table(table@, cs@),
            o == (Origin { path: path@, language: language@ }),
            names == language::words(kinds@),
            all == order::views(nodes@),
            forall|k: int|
                0 <= k < i && names.contains((#[trigger] all[k]).kind) ==> fits(cs@, all[k]),
            order::views(out@) == all_comments(o, names, cs@, all.take(i as int)),
        decreases nodes.len() - i,
    {
        let node = &nodes[i];
        proof {
            assert(all[i as int] == node@);
            assert(all.take(i + 1).drop_last() == all.take(i as int));
            assert(all.take(i + 1).last() == node@);
        }
        if language::is_word(kinds, node.kind.as_str()) {
            match (
                text::table_pos(&table, &cs, node.start),
                text::table_pos(&table, &cs, node.end),
            ) {
                (Some(a), Some(b)) if node.start <= node.end && node.row <= node.start => {
                    proof {
                        if b < a {
                            text::lemma_byte_len_prefix(cs@, b as int, a as int);
                        } else {
                            text::lemma_byte_len_prefix(cs@, a as int, b as int);
                        }
                    }
                    let more = split_comment_node(path, language, &cs, &table, node.row, a, b);
                    extend_comments(&mut out, &more);
                },
                _ => {
                    assert(!fits(cs@, all[i as int]));
                    return None;
                },
            }
        } else {
            assert(order::views(out@) + Seq::<model::CommentView>::empty() == order::views(out@));
        }
        i += 1;
    }
    assert(all.take(nodes.len() as int) == all);
    Some(order::sort_stable(out))
}

/// The outcome of reading the comments of a source.
pub enum Comments {
    /// The comments, by position.
    Found(Seq<model::CommentView>),
    /// No grammar is registered for the language.
    NoGrammar,
    /// The source cannot be parsed.
    Unparsed,
}

/// What reading the comments of a source with a language's grammar gives.
pub open spec fn source_comments(
    path: Seq<char>,
    id: Seq<char>,
    kinds: Seq<Seq<char>>,
    source: Seq<char>,
) -> Comments {
    match language::grammar_with_id(id) {
        None => Comments::NoGrammar,
        Some(grammar) => if text::byte_len(source) > MAX_SOURCE_BYTES {
            Comments::Unparsed
        } else {
            match parsed_nodes(grammar, source) {
                None => Comments::Unparsed,
                Some(nodes) => match comments_of(
                    Origin { path, language: id },
                    kinds,
                    source,
                    nodes,
                ) {
                    Some(comments) => Comments::Found(comments),
                    None => Comments::Unparsed,
                },
            }
        },
    }
}

/// Errors produced while scanning.
#[derive(Debug, PartialEq, Eq)]
pub enum ScanError {
    /// A file could not be read from disk.
    Read {
        /// The file that could not be read.
        path: String,
        /// What went wrong.
        source: String,
    },
    /// A file could not be parsed with its language's grammar.
    Parse {
        /// The file that could not be parsed.
        path: String,
        /// The language id used.
        language: String,
    },
    /// A language's grammar could not be loaded; the file is skipped rather
    /// than failing the scan.
    Grammar {
        /// The language id.
        language: String,
        /// What went wrong.
        detail: String,
    },
    /// The category configuration is invalid.
    MatchConfig(MatchConfigError),
}

impl ScanError {
    /// The text of [`Self::message`].
    pub open spec fn text(self) -> Seq<char> {
        match self {
            ScanError::Read { path, source } => "failed to read "@ + path@ + ": "@ + source@,
            ScanError::Parse { path, language } => "failed to parse "@ + path@ + " as "@
                + language@,
            ScanError::Grammar { language, detail } => "failed to load grammar for "@ + language@
                + ": "@ + detail@,
            ScanError::MatchConfig(e) => e.text(),
        }
    }

    /// A human-readable description of the error.
    pub fn message(&self) -> (r: String)
        ensures
            r@ == self.text(),
    {
        match self {
            ScanError::Read { path, source } => {
                let mut s = "failed to read ".to_owned();
                s.append(path.as_str());
                s.append(": ");
                s.append(source.as_str());
                s
            },
            ScanError::Parse { path, language } => {
                let mut s = "failed to parse ".to_owned();
                s.append(path.as_str());
                s.append(" as ");
                s.append(language.as_str());
                s
            },
            ScanError::Grammar { language, detail } => {
                let mut s = "failed to load grammar for ".to_owned();
                s.append(language.as_str());
                s.append(": ");
                s.append(detail.as_str());
                s
            },
            ScanError::MatchConfig(e) => e.message(),
        }
    }
}

/// Parses `source` with `lang`'s grammar and returns its comment entries,
/// already split at blank lines. Blank-only markers are dropped.
///
/// # Errors
///
/// Returns a [`ScanError::Grammar`] when the grammar cannot be loaded and a
/// [`ScanError::Parse`] when `source` cannot be parsed with it.
pub fn parse_comment_nodes(path: &str, lang: &Language, source: &str) -> (r: Result<
    Vec<Comment>,
    ScanError,
>)
    ensures
        ({
            let outcome = source_comments(
                path@,
                lang.id@,
                language::words(lang.comment_kinds@),
                source@,
            );
            match r {
                Ok(comments) => outcome == Comments::Found(order::views(comments@)),
                Err(ScanError::Grammar { language, detail }) => {
                    &&& outcome is NoGrammar
                    &&& language@ == lang.id@
                    &&& detail@ == "no grammar is registered for "@ + lang.id@
                },
                Err(ScanError::Parse { path: p, language }) => outcome is Unparsed && p@ == path@
                    && language@ == lang.id@,
                Err(_) => false,
            }
        }),
{
    match language::grammar(lang.id) {
        Ok(grammar) => comments_from_tree(path, lang, source, grammar),
        Err(language::GrammarError::Load { language, detail }) => Err(
            ScanError::Grammar { language, detail },
        ),
    }
}

/// Parses `source` with a resolved grammar, collecting every comment node and
/// splitting it at blank lines.
fn comments_from_tree(path: &str, lang: &Language, source: &str, grammar: Grammar) -> (r: Result<
    Vec<Comment>,
    ScanError,
>)
    requires
        language::grammar_with_id(lang.id@) == Some(grammar),
    ensures
        ({
            let outcome = source_comments(
                path@,
                lang.id@,
                language::words(lang.comment_kinds@),
                source@,
            );
            match r {
                Ok(comments) => outcome == Comments::Found(order::views(comments@)),
                Err(ScanError::Parse { path: p, language }) => outcome is Unparsed && p@ == path@
                    && language@ == lang.id@,
                Err(_) => false,
            }
        }),
{
    let parsed = if text::str_bytes(source) > MAX_SOURCE_BYTES {
        None
    } else {
        parse_tree(grammar, source)
    };
    let comments = match &parsed {
        Some(tree) => {
            let nodes = tree_to_nodes(tree);
            comments_in(path, lang.id, &lang.comment_kinds, source, &nodes)
        },
        None => None,
    };
    match comments {
        Some(comments) => Ok(comments),
        None => Err(ScanError::Parse { path: path.to_owned(), language: lang.id.to_owned() }),
    }
}

/// The nodes of a tree.
fn tree_to_nodes(tree: &tree_sitter::Tree) -> (r: Vec<SyntaxNode>)
    ensures
        order::views(r@) == tree_nodes(*tree),
{
    let mut nodes: Vec<SyntaxNode> = Vec::new();
    let n: usize = node_count(tree);
    let mut i: usize = 0;
    while i < n
        invariant
            i <= n,
            n == tree_nodes(*tree).len(),
            order::views(nodes@) == tree_nodes(*tree).take(i as int),
        decreases n - i,
    {
        let ghost before = order::views(nodes@);
        let node = node_at(tree, i);
        nodes.push(node);
        assert(order::views(nodes@) == before.push(node@));
        i += 1;
    }
    assert(tree_nodes(*tree).take(n as int) == tree_nodes(*tree));
    nodes
}

// ---------------------------------------------------------------------------
// Runs and findings
// ---------------------------------------------------------------------------

/// Whether `next` starts on the same or the next line of the end of `c`.
pub open spec fn is_attached(c: model::CommentView, next: model::CommentView) -> bool {
    next.line <= c.end_line + 1
}

/// A list of runs with one more comment: it joins the last run when it starts
/// on the same or the next line of the run's end, else it starts a new run.
pub open spec fn with_comment(
    runs: Seq<Seq<model::CommentView>>,
    c: model::CommentView,
) -> Seq<Seq<model::CommentView>> {
    if runs.len() > 0 && is_attached(runs.last().last(), c) {
        runs.drop_last().push(runs.last().push(c))
    } else {
        runs.push(seq![c])
    }
}

/// Comments grouped into maximal runs of adjacent comments.
pub open spec fn runs_of(cs: Seq<model::CommentView>) -> Seq<Seq<model::CommentView>>
    decreases cs.len(),
{
    if cs.len() == 0 {
        Seq::empty()
    } else {
        with_comment(runs_of(cs.drop_last()), cs.last())
    }
}

/// Grouping keeps every comment, in order, and gives maximal runs of adjacent
/// comments: no run is empty, each comment of a run but the first is attached
/// to the one before it, and the first comment of a run is not attached to
/// the last one of the run before.
pub proof fn law_runs_are_maximal(cs: Seq<model::CommentView>)
    ensures
        ({
            let runs = runs_of(cs);
            &&& runs.flatten() == cs
            &&& forall|k: int| 0 <= k < runs.len() ==> (#[trigger] runs[k]).len() > 0
            &&& forall|k: int, j: int|
                0 <= k < runs.len() && 0 < j < runs[k].len() ==> (#[trigger] runs[k][j]).line
                    <= runs[k][j - 1].end_line + 1
            &&& forall|k: int|
                0 < k < runs.len() ==> (#[trigger] runs[k]).first().line > runs[k
                    - 1].last().end_line + 1
        }),
{
    lemma_runs_keep(cs);
    lemma_runs_attached(cs);
    lemma_runs_apart(cs);
}

/// Grouping keeps every comment, in order, and gives no empty run.
proof fn lemma_runs_keep(cs: Seq<model::CommentView>)
    ensures
        runs_of(cs).flatten() == cs,
        forall|k: int| 0 <= k < runs_of(cs).len() ==> (#[trigger] runs_of(cs)[k]).len() > 0,
    decreases cs.len(),
{
    if cs.len() > 0 {
        let less = runs_of(cs.drop_last());
        let c = cs.last();
        lemma_runs_keep(cs.drop_last());
        assert(cs == cs.drop_last().push(c));
        if less.len() > 0 && is_attached(less.last().last(), c) {
            let grown = less.last().push(c);
            assert(less == less.drop_last().push(less.last()));
            less.drop_last().lemma_flatten_push(less.last());
            less.drop_last().lemma_flatten_push(grown);
            assert(less.drop_last().flatten() + grown == (less.drop_last().flatten()
                + less.last()).push(c));
        } else {
            less.lemma_flatten_push(seq![c]);
            assert(less.flatten() + seq![c] == less.flatten().push(c));
        }
    }
}

/// A comment of a run is attached to the one before it.
proof fn lemma_runs_attached(cs: Seq<model::CommentView>)
    ensures
        forall|k: int, j: int|
            0 <= k < runs_of(cs).len() && 0 < j < runs_of(cs)[k].len() ==> (#[trigger] runs_of(
                cs,
            )[k][j]).line <= runs_of(cs)[k][j - 1].end_line + 1,
    decreases cs.len(),
{
    if cs.len() > 0 {
        let less = runs_of(cs.drop_last());
        let runs = runs_of(cs);
        let c = cs.last();
        lemma_runs_attached(cs.drop_last());
        lemma_runs_keep(cs.drop_last());
        assert forall|k: int, j: int| 0 <= k < runs.len() && 0 < j < runs[k].len() implies (
        #[trigger] runs[k][j]).line <= runs[k][j - 1].end_line + 1 by {
            if k < less.len() && j < less[k].len() {
                assert(runs[k][j] == less[k][j] && runs[k][j - 1] == less[k][j - 1]);
            } else if k < less.len() {
                assert(less[k] == less.last());
            }
        }
    }
}

/// A run is not attached to the one before it.
proof fn lemma_runs_apart(cs: Seq<model::CommentView>)
    ensures
        forall|k: int|
            0 < k < runs_of(cs).len() ==> (#[trigger] runs_of(cs)[k]).first().line > runs_of(cs)[k
                - 1].last().end_line + 1,
    decreases cs.len(),
{
    if cs.len() > 0 {
        let less = runs_of(cs.drop_last());
        let runs = runs_of(cs);
        lemma_runs_apart(cs.drop_last());
        lemma_runs_keep(cs.drop_last());
        assert forall|k: int| 0 < k < runs.len() implies (#[trigger] runs[k]).first().line > runs[k
            - 1].last().end_line + 1 by {
            if k < less.len() {
                assert(less[k].len() > 0);
                assert(runs[k - 1] == less[k - 1]);
                assert(runs[k].first() == less[k].first());
            }
        }
    }
}

/// The comments of a list of runs.
pub open spec fn run_views(runs: Seq<CommentRun>) -> Seq<Seq<model::CommentView>> {
    runs.map_values(|run: CommentRun| run@)
}

/// Groups comments into maximal runs of adjacent comments: a comment joins
/// the current run when it starts on the same or the next line of the run's
/// end.
///
/// Blank lines never produce comments, so a run cannot bridge across one.
pub fn group_runs(comments: &Vec<Comment>) -> (r: Vec<CommentRun>)
    ensures
        run_views(r@) == runs_of(order::views(comments@)),
        forall|k: int| 0 <= k < r.len() ==> (#[trigger] r@[k])@.len() > 0,
{
    let ghost all = order::views(comments@);
    let mut runs: Vec<CommentRun> = Vec::new();
    let mut i: usize = 0;
    while i < comments.len()
        invariant
            i <= comments.len(),
            all == order::views(comments@),
            run_views(runs@) == runs_of(all.take(i as int)),
            forall|k: int| 0 <= k < runs.len() ==> (#[trigger] runs@[k])@.len() > 0,
        decreases comments.len() - i,
    {
        let comment = comments[i].clone();
        let ghost before = run_views(runs@);
        proof {
            assert(all.take(i + 1).drop_last() == all.take(i as int));
            assert(all.take(i + 1).last() == comment@);
        }
        match runs.pop() {
            Some(mut run) => {
                let ghost open = run@;
                assert(before.last() == open);
                let last: usize = run.comments.len() - 1;
                assert(open.last() == run.comments@[last as int]@);
                if comment.line == 0 || comment.line - 1 <= run.comments[last].end_line {
                    run.comments.push(comment);
                    assert(run@ == open.push(comment@));
                    runs.push(run);
                    assert(run_views(runs@) == before.drop_last().push(open.push(comment@)));
                } else {
                    runs.push(run);
                    assert(run_views(runs@) == before);
                    let fresh = CommentRun { comments: vec![comment] };
                    assert(fresh@ == seq![comment@]);
                    runs.push(fresh);
                    assert(run_views(runs@) == before.push(seq![comment@]));
                }
            },
            None => {
                let fresh = CommentRun { comments: vec![comment] };
                assert(fresh@ == seq![comment@]);
                runs.push(fresh);
                assert(run_views(runs@) == before.push(seq![comment@]));
            },
        }
        i += 1;
    }
    assert(all.take(comments.len() as int) == all);
    runs
}

/// The index of the first comment at or after `k` that has a category, or the
/// number of comments.
pub open spec fn next_match(cats: Seq<Option<Seq<char>>>, k: int) -> int
    decreases cats.len() - k,
{
    if k < 0 || k >= cats.len() {
        cats.len() as int
    } else if cats[k] is Some {
        k
    } else {
        next_match(cats, k + 1)
    }
}

/// A part of a run with one matched comment: the comments `start..end`, of
/// which `primary` is the match.
pub struct Segment {
    pub start: int,
    pub primary: int,
    pub end: int,
}

/// The segments of a run from comment `start` on: each ends where the next
/// match begins, and the first takes the comments before its match too.
pub open spec fn segments_from(cats: Seq<Option<Seq<char>>>, start: int) -> Seq<Segment>
    decreases cats.len() - start,
    via segments_from_decreases
{
    let m = next_match(cats, start);
    if start < 0 || m >= cats.len() {
        Seq::empty()
    } else {
        let end = next_match(cats, m + 1);
        seq![Segment { start, primary: m, end }] + segments_from(cats, end)
    }
}

#[via_fn]
proof fn segments_from_decreases(cats: Seq<Option<Seq<char>>>, start: int) {
    lemma_next_match(cats, start);
    lemma_next_match(cats, next_match(cats, start) + 1);
}

proof fn lemma_next_match(cats: Seq<Option<Seq<char>>>, k: int)
    ensures
        0 <= k <= cats.len() ==> k <= next_match(cats, k) <= cats.len(),
        0 <= k && next_match(cats, k) < cats.len() ==> cats[next_match(cats, k)] is Some,
        0 <= k ==> forall|j: int| k <= j < next_match(cats, k) ==> (#[trigger] cats[j]) is None,
    decreases cats.len() - k,
{
    if 0 <= k < cats.len() && cats[k] is None {
        lemma_next_match(cats, k + 1);
    }
}

/// The finding of a segment of `run`.
pub open spec fn segment_finding(
    run: Seq<model::CommentView>,
    cats: Seq<Option<Seq<char>>>,
    g: Segment,
) -> model::FindingView {
    model::FindingView {
        run: run.subrange(g.start, g.end),
        category: cats[g.primary]->0,
        primary: g.primary - g.start,
        selection: model::full_selection((g.end - g.start) as nat),
    }
}

/// The findings of a run whose comments have the categories `cats`.
pub open spec fn run_findings(
    run: Seq<model::CommentView>,
    cats: Seq<Option<Seq<char>>>,
) -> Seq<model::FindingView> {
    segments_from(cats, 0).map_values(|g: Segment| segment_finding(run, cats, g))
}

/// Shape of the segments from `start` on.
proof fn lemma_segments(cats: Seq<Option<Seq<char>>>, start: int)
    requires
        0 <= start <= cats.len(),
    ensures
        ({
            let gs = segments_from(cats, start);
            &&& forall|k: int|
                0 <= k < gs.len() ==> start <= (#[trigger] gs[k]).start <= gs[k].primary
                    < gs[k].end <= cats.len() && cats[gs[k].primary] is Some
            &&& forall|k: int, j: int|
                0 <= k < gs.len() && (#[trigger] gs[k]).start <= j < gs[k].end && j != gs[k].primary
                    ==> (#[trigger] cats[j]) is None
            &&& forall|k: int| 0 < k < gs.len() ==> (#[trigger] gs[k]).start == gs[k - 1].end
            &&& gs.len() > 0 ==> gs[0].start == start && gs.last().end == cats.len()
            &&& gs.len() == 0 ==> forall|j: int| start <= j < cats.len() ==> (#[trigger] cats[j])
                is None
        }),
    decreases cats.len() - start,
{
    lemma_next_match(cats, start);
    let m = next_match(cats, start);
    if m < cats.len() {
        lemma_next_match(cats, m + 1);
        let end = next_match(cats, m + 1);
        lemma_segments(cats, end);
        let gs = segments_from(cats, start);
        let rest = segments_from(cats, end);
        assert forall|k: int| 0 < k < gs.len() implies gs[k] == rest[k - 1] by {}
        assert forall|k: int| 0 < k < gs.len() implies (#[trigger] gs[k]).start == gs[k - 1].end by {
            if k > 1 {
                assert(rest[k - 1].start == rest[k - 2].end);
            }
        }
        if rest.len() == 0 {
            assert(next_match(cats, end) >= cats.len());
            lemma_next_match(cats, end);
            if end < cats.len() {
                assert(cats[end] is Some);
            }
        } else {
            assert(gs.last() == rest.last());
        }
    }
}

/// The segment whose match is comment `j`.
proof fn lemma_segment_of(cats: Seq<Option<Seq<char>>>, start: int, j: int) -> (k: int)
    requires
        0 <= start <= j < cats.len(),
        cats[j] is Some,
    ensures
        0 <= k < segments_from(cats, start).len(),
        segments_from(cats, start)[k].primary == j,
        start <= segments_from(cats, start)[k].start <= j,
        j < segments_from(cats, start)[k].end <= cats.len(),
    decreases cats.len() - start,
{
    lemma_next_match(cats, start);
    let m = next_match(cats, start);
    lemma_next_match(cats, m + 1);
    if m == j {
        0
    } else {
        let end = next_match(cats, m + 1);
        lemma_segment_of(cats, end, j) + 1
    }
}

/// Every finding of a run carries exactly one matched comment, its primary,
/// and selects its whole run.
pub proof fn law_one_match_per_finding(
    run: Seq<model::CommentView>,
    cats: Seq<Option<Seq<char>>>,
    k: int,
)
    requires
        run.len() == cats.len(),
        run.len() <= usize::MAX,
        0 <= k < run_findings(run, cats).len(),
    ensures
        run_findings(run, cats)[k].wf(),
        ({
            let g = segments_from(cats, 0)[k];
            forall|j: int|
                g.start <= j < g.end ==> ((#[trigger] cats[j]) is Some <==> j == g.primary)
        }),
        run_findings(run, cats)[k].selection.start == 0,
        run_findings(run, cats)[k].selection.end == run_findings(run, cats)[k].run.len() - 1,
{
    lemma_segments(cats, 0);
    let g = segments_from(cats, 0)[k];
    assert(run_findings(run, cats)[k] == segment_finding(run, cats, g));
}

/// Every matched comment of a run is the primary of a finding.
pub proof fn law_every_match_is_found(
    run: Seq<model::CommentView>,
    cats: Seq<Option<Seq<char>>>,
    j: int,
)
    requires
        run.len() == cats.len(),
        0 <= j < run.len(),
        cats[j] is Some,
    ensures
        exists|k: int|
            0 <= k < run_findings(run, cats).len() && {
                let f = #[trigger] run_findings(run, cats)[k];
                f.run[f.primary] == run[j] && f.category == cats[j]->0
            },
{
    let k = lemma_segment_of(cats, 0, j);
    let g = segments_from(cats, 0)[k];
    let f = run_findings(run, cats)[k];
    assert(f == segment_finding(run, cats, g));
    assert(run.subrange(g.start, g.end)[g.primary - g.start] == run[j]);
}

/// The findings of a run with a match hold its comments one after another,
/// without gaps or overlaps.
pub proof fn law_findings_cover_the_run(
    run: Seq<model::CommentView>,
    cats: Seq<Option<Seq<char>>>,
)
    requires
        run.len() == cats.len(),
        run_findings(run, cats).len() > 0,
    ensures
        ({
            let gs = segments_from(cats, 0);
            &&& gs[0].start == 0
            &&& gs.last().end == run.len()
            &&& forall|k: int| 0 < k < gs.len() ==> (#[trigger] gs[k]).start == gs[k - 1].end
        }),
{
    lemma_segments(cats, 0);
    assert(run_findings(run, cats).len() == segments_from(cats, 0).len());
}

/// The findings of a run with a match, one after another, are the run: the
/// comments before the first match belong to the first finding, and every
/// other finding starts with its match. A run without a match has none.
pub proof fn law_findings_split_the_run(
    run: Seq<model::CommentView>,
    cats: Seq<Option<Seq<char>>>,
)
    requires
        run.len() == cats.len(),
    ensures
        ({
            let fs = run_findings(run, cats);
            &&& fs.len() == 0 <==> forall|j: int|
                0 <= j < cats.len() ==> (#[trigger] cats[j]) is None
            &&& fs.len() > 0 ==> fs.map_values(|f: model::FindingView| f.run).flatten() == run
            &&& forall|k: int| 0 < k < fs.len() ==> (#[trigger] fs[k]).primary == 0
        }),
{
    let gs = segments_from(cats, 0);
    let fs = run_findings(run, cats);
    lemma_segments(cats, 0);
    let parts = |g: Segment| run.subrange(g.start, g.end);
    assert(fs.map_values(|f: model::FindingView| f.run) == gs.map_values(parts));
    if gs.len() > 0 {
        lemma_segments_flat(run, cats, 0);
        assert(run.skip(0) == run);
        assert(cats[gs[0].primary] is Some);
    }
    lemma_later_segments(cats, 0);
    assert forall|k: int| 0 < k < fs.len() implies (#[trigger] fs[k]).primary == 0 by {
        assert(fs[k] == segment_finding(run, cats, gs[k]));
        assert(gs[k].primary == gs[k].start);
    }
}

/// The comments of the segments, one after another.
proof fn lemma_segments_flat(
    run: Seq<model::CommentView>,
    cats: Seq<Option<Seq<char>>>,
    start: int,
)
    requires
        run.len() == cats.len(),
        0 <= start <= cats.len(),
        segments_from(cats, start).len() > 0,
    ensures
        segments_from(cats, start).map_values(
            |g: Segment| run.subrange(g.start, g.end),
        ).flatten() == run.skip(start),
    decreases cats.len() - start,
{
    let parts = |g: Segment| run.subrange(g.start, g.end);
    let gs = segments_from(cats, start);
    lemma_next_match(cats, start);
    let m = next_match(cats, start);
    lemma_next_match(cats, m + 1);
    let end = next_match(cats, m + 1);
    let rest = segments_from(cats, end);
    assert(gs == seq![gs[0]] + rest);
    let ps = gs.map_values(parts);
    assert(ps.first() == run.subrange(start, end));
    assert(ps.drop_first() == rest.map_values(parts));
    if rest.len() > 0 {
        lemma_segments_flat(run, cats, end);
    } else {
        lemma_next_match(cats, end);
        if end < cats.len() {
            assert(cats[end] is Some);
            assert(next_match(cats, end) == end);
        }
        assert(rest.map_values(parts) == Seq::<Seq<model::CommentView>>::empty());
        assert(run.skip(end) == Seq::<model::CommentView>::empty());
    }
    assert(run.subrange(start, end) + run.skip(end) == run.skip(start));
    assert(ps.flatten() == ps.first() + ps.drop_first().flatten());
}

/// Every segment but the first starts with its match.
proof fn lemma_later_segments(cats: Seq<Option<Seq<char>>>, start: int)
    requires
        0 <= start <= cats.len(),
    ensures
        forall|k: int|
            0 <= k < segments_from(cats, start).len() && (k > 0 || start < cats.len()
                && cats[start] is Some) ==> (#[trigger] segments_from(cats, start)[k]).primary
                == segments_from(cats, start)[k].start,
    decreases cats.len() - start,
{
    lemma_next_match(cats, start);
    let m = next_match(cats, start);
    if m < cats.len() {
        lemma_next_match(cats, m + 1);
        let end = next_match(cats, m + 1);
        lemma_later_segments(cats, end);
        let gs = segments_from(cats, start);
        let rest = segments_from(cats, end);
        assert forall|k: int| 0 < k < gs.len() implies #[trigger] gs[k] == rest[k - 1] by {}
        if rest.len() > 0 {
            assert(end < cats.len());
            assert(cats[end] is Some);
        }
    }
}

/// The categories of a list of optional strings.
pub open spec fn category_texts(cats: Seq<Option<String>>) -> Seq<Option<Seq<char>>> {
    cats.map_values(|c: Option<String>| matcher::text_option(c))
}

/// The index of the first comment at or after `k` that has a category.
fn find_match(cats: &Vec<Option<String>>, k: usize) -> (r: usize)
    requires
        k <= cats.len(),
    ensures
        r == next_match(category_texts(cats@), k as int),
        k <= r <= cats.len(),
{
    let mut i: usize = k;
    while i < cats.len() && cats[i].is_none()
        invariant
            k <= i <= cats.len(),
            next_match(category_texts(cats@), k as int) == next_match(
                category_texts(cats@),
                i as int,
            ),
        decreases cats.len() - i,
    {
        assert(category_texts(cats@)[i as int] is None);
        i += 1;
    }
    proof {
        if i < cats.len() {
            assert(category_texts(cats@)[i as int] is Some);
        }
    }
    i
}

/// The comments `from..to` of a run.
fn slice_run(run: &CommentRun, from: usize, to: usize) -> (r: CommentRun)
    requires
        from <= to <= run@.len(),
    ensures
        r@ == run@.subrange(from as int, to as int),
{
    let mut comments: Vec<Comment> = Vec::new();
    let mut i: usize = from;
    while i < to
        invariant
            from <= i <= to <= run@.len(),
            order::views(comments@) == run@.subrange(from as int, i as int),
        decreases to - i,
    {
        let ghost before = order::views(comments@);
        let c = run.comments[i].clone();
        comments.push(c);
        proof {
            assert(order::views(comments@) == before.push(c@));
            assert(run@[i as int] == c@);
        }
        i += 1;
    }
    let r = CommentRun { comments };
    assert(r@ == order::views(comments@));
    r
}

/// Whether every one of a list of findings is well formed.
pub open spec fn all_wf(fs: Seq<Finding>) -> bool {
    forall|k: int| 0 <= k < fs.len() ==> (#[trigger] fs[k])@.wf()
}

/// Partitions a run whose comments have the categories `cats` into findings:
/// every comment with a category starts a new segment, so each segment holds
/// exactly one matched comment plus any attached neighbours. Non-matching
/// comments between two matches travel with the segment of the *preceding*
/// match; leading and trailing neighbours attach to the first and last
/// segment.
pub fn split_at_matches(run: &CommentRun, cats: &Vec<Option<String>>) -> (r: Vec<Finding>)
    requires
        run@.len() == cats@.len(),
    ensures
        order::views(r@) == run_findings(run@, category_texts(cats@)),
        all_wf(r@),
{
    let ghost texts = category_texts(cats@);
    let ghost make = |g: Segment| segment_finding(run@, texts, g);
    let mut out: Vec<Finding> = Vec::new();
    let mut start: usize = 0;
    let mut m: usize = find_match(cats, 0);
    assert(order::views(out@) + segments_from(texts, 0).map_values(make) == segments_from(
        texts,
        0,
    ).map_values(make));
    while m < cats.len()
        invariant
            start <= m <= cats.len(),
            run@.len() == cats@.len(),
            texts == category_texts(cats@),
            make == (|g: Segment| segment_finding(run@, texts, g)),
            all_wf(out@),
            m == next_match(texts, start as int),
            order::views(out@) + segments_from(texts, start as int).map_values(make)
                == segments_from(texts, 0).map_values(make),
        decreases cats.len() - m,
    {
        let end: usize = find_match(cats, m + 1);
        proof {
            lemma_next_match(texts, start as int);
            assert(texts[m as int] == matcher::text_option(cats@[m as int]));
        }
        if let Some(category) = &cats[m] {
            let finding = Finding {
                run: slice_run(run, start, end),
                category: category.clone(),
                primary: m - start,
                selection: Selection::full(end - start),
            };
            proof {
                let g = Segment { start: start as int, primary: m as int, end: end as int };
                let before = order::views(out@);
                let rest = segments_from(texts, end as int).map_values(make);
                assert(finding@ == make(g));
                assert(segments_from(texts, start as int) == seq![g] + segments_from(
                    texts,
                    end as int,
                ));
                assert(segments_from(texts, start as int).map_values(make) == seq![make(g)] + rest);
                assert(order::views(out@.push(finding)) == before.push(make(g)));
                assert(before + (seq![make(g)] + rest) == before.push(make(g)) + rest);
            }
            out.push(finding);
        }
        start = end;
        proof {
            lemma_next_match(texts, m + 1);
        }
        m = find_match(cats, start);
    }
    assert(segments_from(texts, start as int) == Seq::<Segment>::empty());
    assert(order::views(out@) + Seq::<model::FindingView>::empty() == order::views(out@));
    assert(segments_from(texts, start as int).map_values(make)
        == Seq::<model::FindingView>::empty());
    out
}

/// The categories of the comments of a run.
pub open spec fn run_categories(
    m: matcher::MatcherView,
    run: Seq<model::CommentView>,
) -> Seq<Option<Seq<char>>> {
    run.map_values(|c: model::CommentView| matcher::category_of(m, c.text))
}

/// Partitions an adjacent comment run into findings (see
/// [`split_at_matches`]).
pub fn matched_segments(run: &CommentRun, m: &Matcher) -> (r: Vec<Finding>)
    ensures
        order::views(r@) == run_findings(run@, run_categories(m@, run@)),
        all_wf(r@),
{
    let mut cats: Vec<Option<String>> = Vec::new();
    let mut i: usize = 0;
    while i < run.comments.len()
        invariant
            i <= run.comments.len(),
            category_texts(cats@) == run_categories(m@, run@).take(i as int),
        decreases run.comments.len() - i,
    {
        let ghost before = category_texts(cats@);
        let c = match m.match_category(run.comments[i].text.as_str()) {
            Some(category) => Some(category.to_owned()),
            None => None,
        };
        cats.push(c);
        proof {
            assert(category_texts(cats@) == before.push(matcher::text_option(c)));
            assert(run@[i as int] == run.comments@[i as int]@);
            assert(run_categories(m@, run@)[i as int] == matcher::text_option(c));
        }
        i += 1;
    }
    assert(run_categories(m@, run@).take(run@.len() as int) == run_categories(m@, run@));
    assert(category_texts(cats@).len() == cats@.len());
    split_at_matches(run, &cats)
}

// ---------------------------------------------------------------------------
// Files
// ---------------------------------------------------------------------------

/// Options controlling a scan pass.
#[derive(Debug)]
pub struct ScanOptions {
    /// Paths relative to the repo root to scan; may name files or
    /// directories. Empty means the whole repo.
    pub paths: Vec<String>,
    /// Glob patterns (relative to the repo root) to exclude from scanning,
    /// e.g. `vendor/**`.
    pub exclude: Vec<String>,
    /// Which comments count as marker comments.
    pub match_config: MatchConfig,
    /// Files larger than this many bytes are skipped.
    pub max_file_bytes: usize,
}

/// The default size limit for scanned files: ten mebibytes.
pub const DEFAULT_MAX_FILE_BYTES: usize = 10_485_760;

impl Default for ScanOptions {
    fn default() -> (r: Self)
        ensures
            r.paths@.len() == 0,
            r.exclude@.len() == 0,
            r.match_config@ == matcher::default_settings(),
            r.max_file_bytes == 10 * 1024 * 1024,
    {
        ScanOptions {
            paths: Vec::new(),
            exclude: Vec::new(),
            match_config: MatchConfig::default(),
            max_file_bytes: DEFAULT_MAX_FILE_BYTES,
        }
    }
}

impl Clone for ScanOptions {
    fn clone(&self) -> (r: Self)
        ensures
            r.paths@ == self.paths@,
            r.exclude@ == self.exclude@,
            r.match_config@ == self.match_config@,
            r.max_file_bytes == self.max_file_bytes,
    {
        ScanOptions {
            paths: text::clone_strings(&self.paths),
            exclude: text::clone_strings(&self.exclude),
            match_config: self.match_config.clone(),
            max_file_bytes: self.max_file_bytes,
        }
    }
}

/// The paths to walk for a scope: the root itself for an empty scope, else
/// every scope path read from the root.
pub open spec fn targets_of(root: Seq<char>, paths: Seq<Seq<char>>) -> Seq<Seq<char>> {
    if paths.len() == 0 {
        seq![root]
    } else {
        paths.map_values(|p: Seq<char>| path::joined(root, p))
    }
}

/// The paths to walk for the scope of `options`.
pub fn scope_targets(root: &str, options: &ScanOptions) -> (r: Vec<String>)
    ensures
        text::texts(r@) == targets_of(root@, text::texts(options.paths@)),
{
    let mut out: Vec<String> = Vec::new();
    if options.paths.len() == 0 {
        out.push(root.to_owned());
        assert(text::texts(out@) == seq![root@]);
        return out;
    }
    let ghost all = targets_of(root@, text::texts(options.paths@));
    let mut i: usize = 0;
    while i < options.paths.len()
        invariant
            i <= options.paths.len(),
            options.paths.len() > 0,
            all == targets_of(root@, text::texts(options.paths@)),
            text::texts(out@) == all.take(i as int),
        decreases options.paths.len() - i,
    {
        let ghost before = text::texts(out@);
        let target = path::join(root, options.paths[i].as_str());
        out.push(target);
        proof {
            assert(text::texts(out@) == before.push(target@));
            assert(text::texts(options.paths@)[i as int] == options.paths@[i as int]@);
        }
        i += 1;
    }
    assert(all.take(options.paths.len() as int) == all);
    out
}

/// What was found at a walked path: a file, or the files below a directory.
#[derive(Debug)]
pub enum Walked {
    /// The path names a file; it is always part of the scan.
    File(String),
    /// The files found below the path.
    Tree(Vec<String>),
}

/// Whether one of the first `k` walked paths is the file `path`.
pub open spec fn named_before(walked: Seq<Walked>, k: int, path: Seq<char>) -> bool {
    exists|j: int|
        0 <= j < k && (#[trigger] walked[j] matches Walked::File(p) && path::parts(p@)
            == path::parts(path))
}

/// The files of the first `k` walked paths; a file that is named again does
/// not appear again.
pub open spec fn collected(walked: Seq<Walked>, k: int) -> Seq<Seq<char>>
    decreases k,
{
    if k <= 0 {
        Seq::empty()
    } else {
        collected(walked, k - 1) + (match walked[k - 1] {
            Walked::File(p) => if named_before(walked, k - 1, p@) {
                Seq::empty()
            } else {
                seq![p@]
            },
            Walked::Tree(files) => text::texts(files@),
        })
    }
}

/// The files to scan are the named files and those found below the named
/// directories: each of them is among the files, and nothing else is; a named
/// file is there under its first name.
pub proof fn law_files_are_those_walked(walked: Seq<Walked>, n: int)
    requires
        0 <= n <= walked.len(),
    ensures
        forall|k: int, i: int|
            0 <= k < n && (#[trigger] walked[k] matches Walked::Tree(files) && 0 <= i
                < files@.len()) ==> collected(walked, n).contains(
                #[trigger] (walked[k]->Tree_0)@[i]@,
            ),
        forall|k: int|
            0 <= k < n && (#[trigger] walked[k] is File) ==> exists|i: int|
                0 <= i < collected(walked, n).len() && path::parts(
                    #[trigger] collected(walked, n)[i],
                ) == path::parts((walked[k]->File_0)@),
        forall|x: Seq<char>| #[trigger]
            collected(walked, n).contains(x) ==> exists|k: int|
                0 <= k < n && #[trigger] is_walked(walked[k], x),
    decreases n,
{
    if n > 0 {
        law_files_are_those_walked(walked, n - 1);
        let low = collected(walked, n - 1);
        let all = collected(walked, n);
        assert forall|i: int| 0 <= i < low.len() implies all[i] == low[i] by {}
        assert forall|k: int, i: int|
            0 <= k < n && (#[trigger] walked[k] matches Walked::Tree(files) && 0 <= i
                < files@.len()) implies all.contains(#[trigger] (walked[k]->Tree_0)@[i]@) by {
            let x = (walked[k]->Tree_0)@[i]@;
            if k < n - 1 {
                assert(low.contains(x));
                let m = choose|m: int| 0 <= m < low.len() && low[m] == x;
                assert(all[m] == x);
            } else {
                assert(text::texts((walked[k]->Tree_0)@)[i] == x);
                assert(all[low.len() + i] == x);
            }
        }
        assert forall|k: int| 0 <= k < n && (#[trigger] walked[k] is File) implies exists|i: int|
            0 <= i < all.len() && path::parts(#[trigger] all[i]) == path::parts(
                (walked[k]->File_0)@,
            ) by {
            let x = (walked[k]->File_0)@;
            let first = if k < n - 1 {
                k
            } else if named_before(walked, n - 1, x) {
                choose|j: int|
                    0 <= j < n - 1 && (#[trigger] walked[j] matches Walked::File(p) && path::parts(
                        p@,
                    ) == path::parts(x))
            } else {
                k
            };
            if first < n - 1 {
                assert(walked[first] is File);
                let i = choose|i: int|
                    0 <= i < low.len() && path::parts(#[trigger] low[i]) == path::parts(
                        (walked[first]->File_0)@,
                    );
                assert(path::parts(all[i]) == path::parts(x));
            } else {
                assert(all[low.len() as int] == x);
            }
        }
        assert forall|x: Seq<char>| #[trigger] all.contains(x) implies exists|k: int|
            0 <= k < n && #[trigger] is_walked(walked[k], x) by {
            let i = choose|i: int| 0 <= i < all.len() && all[i] == x;
            if i < low.len() {
                assert(low[i] == x);
                assert(low.contains(x));
                let k = choose|k: int| 0 <= k < n - 1 && #[trigger] is_walked(walked[k], x);
                assert(is_walked(walked[k], x));
            } else {
                match walked[n - 1] {
                    Walked::File(p) => {},
                    Walked::Tree(files) => {
                        assert(text::texts(files@)[i - low.len()] == files@[i - low.len()]@);
                    },
                }
                assert(is_walked(walked[n - 1], x));
            }
        }
    }
}

/// Whether a file was found at a walked path.
pub open spec fn is_walked(w: Walked, path: Seq<char>) -> bool {
    match w {
        Walked::File(p) => p@ == path,
        Walked::Tree(files) => exists|i: int| 0 <= i < files@.len() && #[trigger] files@[i]@ == path,
    }
}

/// A scope without paths is the root, and the paths of any other are read
/// from the root.
pub proof fn law_scopes_are_read_from_the_root(root: Seq<char>, paths: Seq<Seq<char>>)
    ensures
        paths.len() == 0 ==> targets_of(root, paths) == seq![root],
        paths.len() > 0 ==> {
            &&& targets_of(root, paths).len() == paths.len()
            &&& forall|k: int|
                0 <= k < paths.len() ==> #[trigger] targets_of(root, paths)[k] == path::joined(
                    root,
                    paths[k],
                )
        },
{
}

/// The files covered by the scope paths, in the order they were walked.
pub fn collect_files(walked: &Vec<Walked>) -> (r: Vec<String>)
    ensures
        text::texts(r@) == collected(walked@, walked.len() as int),
{
    let mut files: Vec<String> = Vec::new();
    let mut i: usize = 0;
    while i < walked.len()
        invariant
            i <= walked.len(),
            text::texts(files@) == collected(walked@, i as int),
        decreases walked.len() - i,
    {
        let ghost before = text::texts(files@);
        match &walked[i] {
            Walked::File(path) => {
                if !was_named(walked, i, path.as_str()) {
                    files.push(path.clone());
                    assert(text::texts(files@) == before + seq![path@]);
                } else {
                    assert(before + Seq::<Seq<char>>::empty() == before);
                }
            },
            Walked::Tree(found) => {
                let mut k: usize = 0;
                while k < found.len()
                    invariant
                        k <= found.len(),
                        text::texts(files@) == before + text::texts(found@).take(k as int),
                    decreases found.len() - k,
                {
                    let ghost step = text::texts(files@);
                    files.push(found[k].clone());
                    proof {
                        assert(text::texts(files@) == step.push(found@[k as int]@));
                        assert(text::texts(found@)[k as int] == found@[k as int]@);
                    }
                    k += 1;
                }
                assert(text::texts(found@).take(found.len() as int) == text::texts(found@));
            },
        }
        i += 1;
    }
    files
}

/// Whether one of the first `k` walked paths is the file `path`.
fn was_named(walked: &Vec<Walked>, k: usize, path: &str) -> (r: bool)
    requires
        k <= walked.len(),
    ensures
        r == named_before(walked@, k as int, path@),
{
    let mut i: usize = 0;
    while i < k
        invariant
            i <= k <= walked.len(),
            !named_before(walked@, i as int, path@),
        decreases k - i,
    {
        if let Walked::File(p) = &walked[i] {
            if path::same_path(p.as_str(), path) {
                assert(walked@[i as int] matches Walked::File(q) && path::parts(q@)
                    == path::parts(path@));
                return true;
            }
        }
        i += 1;
    }
    false
}

/// The mathematical content of a [`FileEntry`].
#[verifier::ext_equal]
pub struct EntryView {
    pub path: Seq<char>,
    pub content: Result<Seq<u8>, Seq<char>>,
}

/// A file to scan: its path and what reading it gave.
#[derive(Debug)]
pub struct FileEntry {
    /// The file's path.
    pub path: String,
    /// The file's bytes, or why it could not be read.
    pub content: Result<Vec<u8>, String>,
}

impl View for FileEntry {
    type V = EntryView;

    open spec fn view(&self) -> EntryView {
        EntryView {
            path: self.path@,
            content: match self.content {
                Ok(bytes) => Ok(bytes@),
                Err(message) => Err(message@),
            },
        }
    }
}

impl Ranked for FileEntry {
    open spec fn rank(a: EntryView, b: EntryView) -> int {
        path::path_order(a.path, b.path)
    }

    proof fn rank_is_total(a: EntryView, b: EntryView) {
        path::lemma_path_order(a.path, b.path);
    }

    proof fn rank_is_transitive(a: EntryView, b: EntryView, c: EntryView) {
        path::lemma_path_transitive(a.path, b.path, c.path);
    }

    fn not_after(&self, other: &Self) -> (r: bool) {
        match path::rank_paths(self.path.as_str(), other.path.as_str()) {
            Rank::After => false,
            _ => true,
        }
    }
}

/// Whether entry `k` has the same path as the entry before it.
pub open spec fn is_repeat(s: Seq<EntryView>, k: int) -> bool {
    k > 0 && path::parts(s[k - 1].path) == path::parts(s[k].path)
}

// ---------------------------------------------------------------------------
// Scanning
// ---------------------------------------------------------------------------

/// Aggregate counters for a scan pass.
#[derive(Debug, Clone, Copy, PartialEq, Eq)]
pub struct ScanStats {
    /// Files that were parsed.
    pub files: usize,
    /// Findings produced.
    pub findings: usize,
    /// Files skipped because they are not valid UTF-8.
    pub skipped_non_utf8: usize,
    /// Files skipped because they exceed `ScanOptions::max_file_bytes`.
    pub skipped_too_large: usize,
    /// Files skipped because no grammar is registered for them.
    pub skipped_unsupported: usize,
    /// Files skipped because their language's grammar could not be loaded.
    pub skipped_grammar: usize,
}

impl Default for ScanStats {
    fn default() -> (r: Self)
        ensures
            r == (ScanStats {
                files: 0,
                findings: 0,
                skipped_non_utf8: 0,
                skipped_too_large: 0,
                skipped_unsupported: 0,
                skipped_grammar: 0,
            }),
    {
        ScanStats {
            files: 0,
            findings: 0,
            skipped_non_utf8: 0,
            skipped_too_large: 0,
            skipped_unsupported: 0,
            skipped_grammar: 0,
        }
    }
}

/// The outcome of a scan pass: findings plus statistics.
#[derive(Debug)]
pub struct ScanResult {
    /// Every finding, sorted by path then line.
    pub findings: Vec<Finding>,
    /// Statistics about what was scanned and skipped.
    pub stats: ScanStats,
}

/// The settings of a scan pass.
pub struct ScanPlan {
    pub matcher: matcher::MatcherView,
    pub max_file_bytes: int,
}

/// What becomes of one file.
pub enum FileOutcome {
    /// No grammar is registered for the file.
    Unsupported,
    /// The file could not be read.
    Unreadable(Seq<char>),
    /// The file exceeds the size limit.
    TooLarge,
    /// The file is not valid UTF-8.
    NotText,
    /// The language's grammar could not be loaded.
    NoGrammar,
    /// The file could not be parsed.
    Unparsed,
    /// The file's findings.
    Scanned(Seq<model::FindingView>),
}

/// The findings of a list of runs.
pub open spec fn findings_in(
    m: matcher::MatcherView,
    runs: Seq<Seq<model::CommentView>>,
) -> Seq<model::FindingView>
    decreases runs.len(),
{
    if runs.len() == 0 {
        Seq::empty()
    } else {
        findings_in(m, runs.drop_last()) + run_findings(
            runs.last(),
            run_categories(m, runs.last()),
        )
    }
}

/// What becomes of the file `e` in a repository at `root`.
pub open spec fn file_outcome(plan: ScanPlan, root: Seq<char>, e: EntryView) -> FileOutcome {
    match language::grammar_for(e.path) {
        None => FileOutcome::Unsupported,
        Some(g) => match e.content {
            Err(message) => FileOutcome::Unreadable(message),
            Ok(bytes) => if bytes.len() > plan.max_file_bytes {
                FileOutcome::TooLarge
            } else if !vstd::utf8::valid_utf8(bytes) {
                FileOutcome::NotText
            } else {
                match source_comments(
                    path::relative(e.path, root),
                    language::id_of(g),
                    language::comment_kinds_of(g),
                    vstd::utf8::decode_utf8(bytes),
                ) {
                    Comments::NoGrammar => FileOutcome::NoGrammar,
                    Comments::Unparsed => FileOutcome::Unparsed,
                    Comments::Found(comments) => FileOutcome::Scanned(
                        findings_in(plan.matcher, runs_of(comments)),
                    ),
                }
            },
        },
    }
}

/// Whether a file ends the scan.
pub open spec fn is_fatal(o: FileOutcome) -> bool {
    o is Unreadable || o is Unparsed
}

/// The place of the first of the first `k` entries whose file ends the scan;
/// an entry with the same path as the one before it does not count.
pub open spec fn first_fatal(
    plan: ScanPlan,
    root: Seq<char>,
    s: Seq<EntryView>,
    k: int,
) -> Option<int>
    decreases k,
{
    if k <= 0 {
        None
    } else if first_fatal(plan, root, s, k - 1) is Some {
        first_fatal(plan, root, s, k - 1)
    } else if !is_repeat(s, k - 1) && is_fatal(file_outcome(plan, root, s[k - 1])) {
        Some(k - 1)
    } else {
        None
    }
}

/// The findings of the first `k` entries, file by file.
pub open spec fn findings_upto(
    plan: ScanPlan,
    root: Seq<char>,
    s: Seq<EntryView>,
    k: int,
) -> Seq<model::FindingView>
    decreases k,
{
    if k <= 0 {
        Seq::empty()
    } else {
        findings_upto(plan, root, s, k - 1) + (if is_repeat(s, k - 1) {
            Seq::empty()
        } else {
            match file_outcome(plan, root, s[k - 1]) {
                FileOutcome::Scanned(fs) => fs,
                _ => Seq::empty(),
            }
        })
    }
}

/// The findings of all entries, in the order of paths and lines.
pub open spec fn all_findings(
    plan: ScanPlan,
    root: Seq<char>,
    s: Seq<EntryView>,
) -> Seq<model::FindingView> {
    order::sorted::<Finding>(findings_upto(plan, root, s, s.len() as int))
}

/// The comments of the file `e` in a repository at `root`, by position, when
/// it can be read and parsed.
pub open spec fn comments_in_file(root: Seq<char>, e: EntryView) -> Option<
    Seq<model::CommentView>,
> {
    match (language::grammar_for(e.path), e.content) {
        (Some(g), Ok(bytes)) => match source_comments(
            path::relative(e.path, root),
            language::id_of(g),
            language::comment_kinds_of(g),
            vstd::utf8::decode_utf8(bytes),
        ) {
            Comments::Found(comments) => Some(comments),
            _ => None,
        },
        _ => None,
    }
}

/// Whether the comments of a finding are among `cs`, those of the file at
/// `path`, in byte order.
pub open spec fn is_from(
    f: model::FindingView,
    cs: Seq<model::CommentView>,
    path: Seq<char>,
) -> bool {
    &&& forall|x: int|
        0 <= x < f.run.len() ==> cs.contains(#[trigger] f.run[x]) && f.run[x].path == path
    &&& forall|x: int, y: int|
        0 <= x <= y < f.run.len() ==> (#[trigger] f.run[x]).start <= (#[trigger] f.run[y]).start
}

/// Whether exactly the primary comment of a finding matches, with the
/// finding's category.
pub open spec fn is_single_match(m: matcher::MatcherView, f: model::FindingView) -> bool {
    &&& 0 <= f.primary < f.run.len()
    &&& matcher::category_of(m, f.run[f.primary].text) == Some(f.category)
    &&& forall|x: int|
        0 <= x < f.run.len() && x != f.primary ==> matcher::category_of(
            m,
            (#[trigger] f.run[x]).text,
        ) is None
}

/// The comments of a file are sorted and carry its path.
proof fn lemma_file_comments(root: Seq<char>, e: EntryView)
    ensures
        comments_in_file(root, e) matches Some(cs) ==> {
            &&& order::is_sorted::<Comment>(cs)
            &&& forall|i: int|
                0 <= i < cs.len() ==> (#[trigger] cs[i]).path == path::relative(e.path, root)
        },
{
    if let Some(cs) = comments_in_file(root, e) {
        let g = language::grammar_for(e.path)->0;
        let source = vstd::utf8::decode_utf8(e.content->Ok_0);
        let grammar = language::grammar_with_id(language::id_of(g))->0;
        let nodes = parsed_nodes(grammar, source)->0;
        let o = Origin { path: path::relative(e.path, root), language: language::id_of(g) };
        let kinds = language::comment_kinds_of(g);
        let all = all_comments(o, kinds, source, nodes);
        assert(cs == order::sorted::<Comment>(all));
        lemma_comment_paths(o, kinds, source, nodes);
        let p = |c: model::CommentView| c.path == o.path;
        assert forall|i: int| 0 <= i < all.len() implies p(#[trigger] all[i]) by {}
        order::lemma_sorted_all::<Comment>(all, p);
        order::law_sorted::<Comment>(all);
        assert forall|i: int| 0 <= i < cs.len() implies (#[trigger] cs[i]).path == o.path by {
            assert(p(cs[i]));
        }
    }
}

/// The comments of a list of nodes carry the path of their origin.
proof fn lemma_comment_paths(
    o: Origin,
    kinds: Seq<Seq<char>>,
    s: Seq<char>,
    nodes: Seq<NodeView>,
)
    ensures
        forall|i: int|
            0 <= i < all_comments(o, kinds, s, nodes).len() ==> (#[trigger] all_comments(
                o,
                kinds,
                s,
                nodes,
            )[i]).path == o.path,
    decreases nodes.len(),
{
    if nodes.len() > 0 {
        lemma_comment_paths(o, kinds, s, nodes.drop_last());
        let low = all_comments(o, kinds, s, nodes.drop_last());
        let more = node_comments(o, kinds, s, nodes.last());
        assert forall|i: int| 0 <= i < more.len() implies (#[trigger] more[i]).path == o.path by {}
        let all = all_comments(o, kinds, s, nodes);
        assert forall|i: int| 0 <= i < all.len() implies (#[trigger] all[i]).path == o.path by {
            if i < low.len() {
                assert(all[i] == low[i]);
            } else {
                assert(all[i] == more[i - low.len()]);
            }
        }
    }
}

/// The comments of the runs are among the comments, and keep their order.
proof fn lemma_runs_within(cs: Seq<model::CommentView>)
    requires
        order::is_sorted::<Comment>(cs),
    ensures
        forall|r: int, j: int|
            0 <= r < runs_of(cs).len() && 0 <= j < runs_of(cs)[r].len() ==> cs.contains(
                #[trigger] runs_of(cs)[r][j],
            ),
        forall|r: int| 0 <= r < runs_of(cs).len() ==> order::is_sorted::<Comment>(
            #[trigger] runs_of(cs)[r],
        ),
    decreases cs.len(),
{
    if cs.len() > 0 {
        let less = cs.drop_last();
        let c = cs.last();
        let low = runs_of(less);
        let runs = runs_of(cs);
        assert forall|i: int, j: int| 0 <= i <= j < less.len() implies Comment::rank(
            #[trigger] less[i],
            #[trigger] less[j],
        ) <= 0 by {
            assert(less[i] == cs[i] && less[j] == cs[j]);
        }
        lemma_runs_within(less);
        assert(cs[cs.len() - 1] == c);
        assert forall|x: model::CommentView| less.contains(x) implies #[trigger] cs.contains(x)
            && x.start <= c.start by {
            let i = choose|i: int| 0 <= i < less.len() && less[i] == x;
            assert(cs[i] == x);
            assert(Comment::rank(cs[i], cs[cs.len() - 1]) <= 0);
        }
        assert forall|r: int, j: int| 0 <= r < runs.len() && 0 <= j < runs[r].len() implies
            cs.contains(#[trigger] runs[r][j]) by {
            if r < low.len() && j < low[r].len() {
                assert(runs[r][j] == low[r][j]);
                assert(less.contains(low[r][j]));
            } else {
                assert(runs[r][j] == c);
            }
        }
        assert forall|r: int| 0 <= r < runs.len() implies order::is_sorted::<Comment>(
            #[trigger] runs[r],
        ) by {
            let run = runs[r];
            assert forall|i: int, j: int| 0 <= i <= j < run.len() implies Comment::rank(
                #[trigger] run[i],
                #[trigger] run[j],
            ) <= 0 by {
                if r < low.len() {
                    assert(order::is_sorted::<Comment>(low[r]));
                    if j < low[r].len() {
                        assert(run[i] == low[r][i] && run[j] == low[r][j]);
                    } else if i < low[r].len() {
                        assert(run[i] == low[r][i]);
                        assert(less.contains(low[r][i]));
                    }
                }
            }
        }
    }
}

/// Where comment `i` is among the runs.
proof fn lemma_run_of(cs: Seq<model::CommentView>, i: int) -> (at: (int, int))
    requires
        0 <= i < cs.len(),
    ensures
        0 <= at.0 < runs_of(cs).len(),
        0 <= at.1 < runs_of(cs)[at.0].len(),
        runs_of(cs)[at.0][at.1] == cs[i],
    decreases cs.len(),
{
    let less = cs.drop_last();
    let low = runs_of(less);
    let runs = runs_of(cs);
    if i < less.len() {
        let at = lemma_run_of(less, i);
        assert(runs[at.0][at.1] == low[at.0][at.1]);
        at
    } else {
        (runs.len() - 1, runs.last().len() - 1)
    }
}

/// A finding of a list of runs is a finding of one of them.
proof fn lemma_finding_run(
    m: matcher::MatcherView,
    runs: Seq<Seq<model::CommentView>>,
    f: model::FindingView,
) -> (at: (int, int))
    requires
        findings_in(m, runs).contains(f),
    ensures
        0 <= at.0 < runs.len(),
        0 <= at.1 < run_findings(runs[at.0], run_categories(m, runs[at.0])).len(),
        run_findings(runs[at.0], run_categories(m, runs[at.0]))[at.1] == f,
    decreases runs.len(),
{
    let low = findings_in(m, runs.drop_last());
    let more = run_findings(runs.last(), run_categories(m, runs.last()));
    let all = findings_in(m, runs);
    let i = choose|i: int| 0 <= i < all.len() && all[i] == f;
    if i < low.len() {
        assert(low[i] == f);
        lemma_finding_run(m, runs.drop_last(), f)
    } else {
        assert(more[i - low.len()] == f);
        (runs.len() - 1, i - low.len())
    }
}

/// The findings of a run are among those of the list.
proof fn lemma_run_findings_in(
    m: matcher::MatcherView,
    runs: Seq<Seq<model::CommentView>>,
    r: int,
    f: model::FindingView,
)
    requires
        0 <= r < runs.len(),
        run_findings(runs[r], run_categories(m, runs[r])).contains(f),
    ensures
        findings_in(m, runs).contains(f),
    decreases runs.len(),
{
    let low = findings_in(m, runs.drop_last());
    let more = run_findings(runs.last(), run_categories(m, runs.last()));
    let all = findings_in(m, runs);
    if r < runs.len() - 1 {
        lemma_run_findings_in(m, runs.drop_last(), r, f);
        let i = choose|i: int| 0 <= i < low.len() && low[i] == f;
        assert(all[i] == f);
    } else {
        let i = choose|i: int| 0 <= i < more.len() && more[i] == f;
        assert(all[low.len() + i] == f);
    }
}

/// A finding of the first `k` entries is one of a scanned file.
proof fn lemma_finding_file(
    plan: ScanPlan,
    root: Seq<char>,
    s: Seq<EntryView>,
    k: int,
    f: model::FindingView,
) -> (j: int)
    requires
        findings_upto(plan, root, s, k).contains(f),
    ensures
        0 <= j < k,
        !is_repeat(s, j),
        file_outcome(plan, root, s[j]) is Scanned,
        file_outcome(plan, root, s[j])->Scanned_0.contains(f),
    decreases k,
{
    let all = findings_upto(plan, root, s, k);
    let i = choose|i: int| 0 <= i < all.len() && all[i] == f;
    let low = findings_upto(plan, root, s, k - 1);
    if i < low.len() {
        assert(low[i] == f);
        lemma_finding_file(plan, root, s, k - 1, f)
    } else {
        assert(file_outcome(plan, root, s[k - 1])->Scanned_0[i - low.len()] == f);
        k - 1
    }
}

/// The findings of a scanned file are among those of the entries.
proof fn lemma_file_findings_in(
    plan: ScanPlan,
    root: Seq<char>,
    s: Seq<EntryView>,
    k: int,
    j: int,
    f: model::FindingView,
)
    requires
        0 <= j < k,
        !is_repeat(s, j),
        file_outcome(plan, root, s[j]) is Scanned,
        file_outcome(plan, root, s[j])->Scanned_0.contains(f),
    ensures
        findings_upto(plan, root, s, k).contains(f),
    decreases k,
{
    let low = findings_upto(plan, root, s, k - 1);
    let all = findings_upto(plan, root, s, k);
    if j < k - 1 {
        lemma_file_findings_in(plan, root, s, k - 1, j, f);
        let i = choose|i: int| 0 <= i < low.len() && low[i] == f;
        assert(all[i] == f);
    } else {
        let fs = file_outcome(plan, root, s[j])->Scanned_0;
        let i = choose|i: int| 0 <= i < fs.len() && fs[i] == f;
        assert(all[low.len() + i] == f);
    }
}

/// A part of a run comes from the file that the run comes from.
proof fn lemma_part_is_from(
    cs: Seq<model::CommentView>,
    run: Seq<model::CommentView>,
    path: Seq<char>,
    f: model::FindingView,
    start: int,
)
    requires
        order::is_sorted::<Comment>(run),
        forall|x: int| 0 <= x < run.len() ==> cs.contains(#[trigger] run[x]),
        forall|i: int| 0 <= i < cs.len() ==> (#[trigger] cs[i]).path == path,
        0 <= start,
        start + f.run.len() <= run.len(),
        forall|x: int| 0 <= x < f.run.len() ==> #[trigger] f.run[x] == run[start + x],
    ensures
        is_from(f, cs, path),
{
    assert forall|x: int| 0 <= x < f.run.len() implies cs.contains(#[trigger] f.run[x])
        && f.run[x].path == path by {
        assert(cs.contains(run[start + x]));
        let i = choose|i: int| 0 <= i < cs.len() && cs[i] == f.run[x];
        assert(cs[i].path == path);
    }
    assert forall|x: int, y: int| 0 <= x <= y < f.run.len() implies (#[trigger] f.run[x]).start <= (
    #[trigger] f.run[y]).start by {
        assert(Comment::rank(run[start + x], run[start + y]) <= 0);
    }
}

/// The finding of a segment selects all of it.
proof fn lemma_segment_whole(
    run: Seq<model::CommentView>,
    cats: Seq<Option<Seq<char>>>,
    g: Segment,
)
    requires
        0 <= g.start <= g.primary < g.end <= run.len(),
        g.end - g.start <= usize::MAX,
    ensures
        ({
            let f = segment_finding(run, cats, g);
            &&& f.wf()
            &&& f.selection.start == 0
            &&& f.selection.end == f.run.len() - 1
            &&& f.run.len() == g.end - g.start
            &&& forall|x: int| 0 <= x < f.run.len() ==> #[trigger] f.run[x] == run[g.start + x]
        }),
{
}

/// A segment with one match is a finding with one.
proof fn lemma_segment_match(m: matcher::MatcherView, run: Seq<model::CommentView>, g: Segment)
    requires
        0 <= g.start <= g.primary < g.end <= run.len(),
        run_categories(m, run)[g.primary] is Some,
        forall|j: int|
            g.start <= j < g.end && j != g.primary ==> (#[trigger] run_categories(m, run)[j])
                is None,
    ensures
        is_single_match(m, segment_finding(run, run_categories(m, run), g)),
{
    let cats = run_categories(m, run);
    let f = segment_finding(run, cats, g);
    assert forall|x: int| 0 <= x < f.run.len() implies matcher::category_of(
        m,
        (#[trigger] f.run[x]).text,
    ) == cats[g.start + x] by {
        assert(f.run[x] == run[g.start + x]);
    }
}

/// Every finding of a scan selects its whole run, exactly its primary comment
/// matches, and its comments come from one scanned file, in byte order.
pub proof fn law_findings_are_single_matches(
    plan: ScanPlan,
    root: Seq<char>,
    s: Seq<EntryView>,
    f: model::FindingView,
)
    requires
        all_findings(plan, root, s).contains(f),
        f.run.len() <= usize::MAX,
    ensures
        f.wf(),
        f.selection.start == 0,
        f.selection.end == f.run.len() - 1,
        is_single_match(plan.matcher, f),
        exists|j: int|
            {
                &&& 0 <= j < s.len()
                &&& !is_repeat(s, j)
                &&& file_outcome(plan, root, #[trigger] s[j]) is Scanned
                &&& comments_in_file(root, s[j]) matches Some(cs)
                &&& is_from(f, cs, path::relative(s[j].path, root))
            },
{
    let m = plan.matcher;
    let n = s.len() as int;
    order::lemma_sorted_contains::<Finding>(findings_upto(plan, root, s, n), f);
    let j = lemma_finding_file(plan, root, s, n, f);
    let cs = comments_in_file(root, s[j])->0;
    let runs = runs_of(cs);
    assert(file_outcome(plan, root, s[j]) == FileOutcome::Scanned(findings_in(m, runs)));
    lemma_file_comments(root, s[j]);
    lemma_runs_within(cs);
    let at = lemma_finding_run(m, runs, f);
    let run = runs[at.0];
    let cats = run_categories(m, run);
    lemma_segments(cats, 0);
    let g = segments_from(cats, 0)[at.1];
    assert(f == segment_finding(run, cats, g));
    lemma_segment_match(m, run, g);
    lemma_segment_whole(run, cats, g);
    assert forall|x: int| 0 <= x < run.len() implies cs.contains(#[trigger] run[x]) by {
        assert(run[x] == runs[at.0][x]);
    }
    lemma_part_is_from(cs, run, path::relative(s[j].path, root), f, g.start);
    assert(is_from(f, cs, path::relative(s[j].path, root)));
}

/// Every matched comment of a scanned file is the primary comment of a
/// finding of the scan, with its category.
pub proof fn law_matched_comments_are_found(
    plan: ScanPlan,
    root: Seq<char>,
    s: Seq<EntryView>,
    j: int,
    c: model::CommentView,
)
    requires
        0 <= j < s.len(),
        !is_repeat(s, j),
        file_outcome(plan, root, s[j]) is Scanned,
        comments_in_file(root, s[j]) matches Some(cs) && cs.contains(c),
        matcher::category_of(plan.matcher, c.text) is Some,
    ensures
        exists|f: model::FindingView|
            {
                &&& #[trigger] all_findings(plan, root, s).contains(f)
                &&& 0 <= f.primary < f.run.len()
                &&& f.run[f.primary] == c
                &&& matcher::category_of(plan.matcher, c.text) == Some(f.category)
            },
{
    let m = plan.matcher;
    let n = s.len() as int;
    let cs = comments_in_file(root, s[j])->0;
    let runs = runs_of(cs);
    let i = choose|i: int| 0 <= i < cs.len() && cs[i] == c;
    let at = lemma_run_of(cs, i);
    let run = runs[at.0];
    let cats = run_categories(m, run);
    assert(cats[at.1] == matcher::category_of(m, c.text));
    let k = lemma_segment_of(cats, 0, at.1);
    let g = segments_from(cats, 0)[k];
    let f = run_findings(run, cats)[k];
    assert(f == segment_finding(run, cats, g));
    assert(f.run[f.primary] == run[at.1]);
    assert(run_findings(run, cats).contains(f));
    lemma_run_findings_in(m, runs, at.0, f);
    lemma_file_findings_in(plan, root, s, n, j, f);
    order::lemma_sorted_contains::<Finding>(findings_upto(plan, root, s, n), f);
    assert(all_findings(plan, root, s).contains(f));
}

/// What becomes of a file: one with an extension of no language is not
/// supported; else one that cannot be read ends the scan; else one with more
/// bytes than allowed is too large; else one that is not UTF-8 is no text;
/// and every other one is scanned, unless its comments cannot be told.
pub proof fn law_outcomes_follow_the_file(plan: ScanPlan, root: Seq<char>, e: EntryView)
    ensures
        ({
            let o = file_outcome(plan, root, e);
            let known = language::grammar_for(e.path) is Some;
            &&& o is Unsupported <==> !known
            &&& o is Unreadable <==> known && e.content is Err
            &&& known ==> (e.content matches Err(m) ==> o == FileOutcome::Unreadable(m))
            &&& o is TooLarge <==> known && (e.content matches Ok(bytes) && bytes.len()
                > plan.max_file_bytes)
            &&& o is NotText <==> known && (e.content matches Ok(bytes) && bytes.len()
                <= plan.max_file_bytes && !vstd::utf8::valid_utf8(bytes))
            &&& o is Scanned ==> known && e.content is Ok && comments_in_file(root, e) is Some
            &&& known && (e.content matches Ok(bytes) && bytes.len() <= plan.max_file_bytes
                && vstd::utf8::valid_utf8(bytes)) && comments_in_file(root, e) is Some ==> o
                is Scanned
        }),
{
}

/// A file that is scanned counts as a file, one that is left out counts under
/// the reason for it, and no count changes for any other file.
pub proof fn law_every_file_is_counted_once(
    plan: ScanPlan,
    root: Seq<char>,
    s: Seq<EntryView>,
    k: int,
    before: ScanStats,
    after: ScanStats,
)
    requires
        0 <= k < s.len(),
        stats_match(plan, root, s, k, before),
        stats_match(plan, root, s, k + 1, after),
    ensures
        ({
            let fresh = k == 0 || path::parts(s[k - 1].path) != path::parts(s[k].path);
            let known = language::grammar_for(s[k].path) is Some;
            let large = s[k].content matches Ok(bytes) && bytes.len() > plan.max_file_bytes;
            let small = s[k].content matches Ok(bytes) && bytes.len() <= plan.max_file_bytes;
            let valid = s[k].content matches Ok(bytes) && vstd::utf8::valid_utf8(bytes);
            let o = file_outcome(plan, root, s[k]);
            &&& !fresh ==> {
                &&& after.files == before.files
                &&& after.skipped_unsupported == before.skipped_unsupported
                &&& after.skipped_too_large == before.skipped_too_large
                &&& after.skipped_non_utf8 == before.skipped_non_utf8
                &&& after.skipped_grammar == before.skipped_grammar
            }
            &&& fresh ==> {
                &&& after.skipped_unsupported - before.skipped_unsupported == if !known {
                    1int
                } else {
                    0
                }
                &&& after.skipped_too_large - before.skipped_too_large == if known && large {
                    1int
                } else {
                    0
                }
                &&& after.skipped_non_utf8 - before.skipped_non_utf8 == if known && small
                    && !valid {
                    1int
                } else {
                    0
                }
                &&& after.skipped_grammar - before.skipped_grammar == if o is NoGrammar {
                    1int
                } else {
                    0
                }
                &&& after.files - before.files == if o is Scanned {
                    1int
                } else {
                    0
                }
            }
        }),
{
    reveal(stats_match);
    law_outcomes_follow_the_file(plan, root, s[k]);
}

/// Nothing was counted before the first file.
pub proof fn law_counts_start_at_zero(
    plan: ScanPlan,
    root: Seq<char>,
    s: Seq<EntryView>,
    stats: ScanStats,
)
    requires
        stats_match(plan, root, s, 0, stats),
    ensures
        stats.files == 0,
        stats.skipped_unsupported == 0,
        stats.skipped_too_large == 0,
        stats.skipped_non_utf8 == 0,
        stats.skipped_grammar == 0,
{
    reveal(stats_match);
}

/// A scan ends at the first file that cannot be read or parsed, where a file
/// that comes again does not count.
pub proof fn law_the_first_fault_ends_the_scan(
    plan: ScanPlan,
    root: Seq<char>,
    s: Seq<EntryView>,
    n: int,
)
    requires
        0 <= n <= s.len(),
    ensures
        match first_fatal(plan, root, s, n) {
            Some(k) => {
                &&& 0 <= k < n
                &&& k == 0 || path::parts(s[k - 1].path) != path::parts(s[k].path)
                &&& file_outcome(plan, root, s[k]) is Unreadable || file_outcome(plan, root, s[k])
                    is Unparsed
                &&& forall|j: int|
                    0 <= j < k && (j == 0 || path::parts(s[j - 1].path) != path::parts(s[j].path))
                        ==> !(#[trigger] file_outcome(plan, root, s[j]) is Unreadable) && !(
                    file_outcome(plan, root, s[j]) is Unparsed)
            },
            None => forall|j: int|
                0 <= j < n && (j == 0 || path::parts(s[j - 1].path) != path::parts(s[j].path))
                    ==> !(#[trigger] file_outcome(plan, root, s[j]) is Unreadable) && !(
                file_outcome(plan, root, s[j]) is Unparsed),
        },
    decreases n,
{
    if n > 0 {
        law_the_first_fault_ends_the_scan(plan, root, s, n - 1);
    }
}

/// The findings of a scan are in the order of their paths, and those of one
/// path in the order of the lines of their matches.
pub proof fn law_findings_are_in_order(
    plan: ScanPlan,
    root: Seq<char>,
    s: Seq<EntryView>,
    i: int,
    j: int,
)
    requires
        0 <= i <= j < all_findings(plan, root, s).len(),
        all_findings(plan, root, s)[i].wf(),
        all_findings(plan, root, s)[j].wf(),
    ensures
        ({
            let f = all_findings(plan, root, s)[i];
            let g = all_findings(plan, root, s)[j];
            &&& path::path_order(f.run[0].path, g.run[0].path) <= 0
            &&& path::parts(f.run[0].path) == path::parts(g.run[0].path) ==> f.run[f.primary].line
                <= g.run[g.primary].line
        }),
{
    let found = findings_upto(plan, root, s, s.len() as int);
    order::law_sorted::<Finding>(found);
    let f = all_findings(plan, root, s)[i];
    let g = all_findings(plan, root, s)[j];
    assert(Finding::rank(f, g) <= 0);
    path::lemma_path_order(f.run[0].path, g.run[0].path);
}

/// The comments of a scanned file are what the file holds where they say they
/// are, carry its path as seen from the root, and come in byte order.
pub proof fn law_file_comments_are_where_they_say(
    root: Seq<char>,
    e: EntryView,
    c: model::CommentView,
)
    requires
        comments_in_file(root, e) matches Some(cs) && cs.contains(c),
    ensures
        c.path == path::relative(e.path, root),
        language::grammar_for(e.path) matches Some(g) && c.language == language::id_of(g),
        e.content matches Ok(bytes) && {
            let source = vstd::utf8::decode_utf8(bytes);
            &&& text::is_boundary(source, c.start)
            &&& text::is_boundary(source, c.end)
            &&& c.start < c.end
            &&& text::byte_slice(source, c.start, c.end) == c.text
            &&& c.end_line == c.line + text::newlines(c.text)
        },
        comments_in_file(root, e) matches Some(cs) && forall|i: int, j: int|
            0 <= i <= j < cs.len() ==> (#[trigger] cs[i]).start <= (#[trigger] cs[j]).start,
{
    lemma_file_comments(root, e);
    let cs = comments_in_file(root, e)->0;
    assert forall|i: int, j: int| 0 <= i <= j < cs.len() implies (#[trigger] cs[i]).start <= (
    #[trigger] cs[j]).start by {
        assert(Comment::rank(cs[i], cs[j]) <= 0);
    }
    let g = language::grammar_for(e.path)->0;
    let source = vstd::utf8::decode_utf8(e.content->Ok_0);
    let grammar = language::grammar_with_id(language::id_of(g))->0;
    let nodes = parsed_nodes(grammar, source)->0;
    let o = Origin { path: path::relative(e.path, root), language: language::id_of(g) };
    law_comments_are_where_they_say(o, language::comment_kinds_of(g), source, nodes, c);
}

/// Every comment of a finding is what its file holds in the comment's range.
pub proof fn law_findings_hold_the_bytes_of_their_file(
    plan: ScanPlan,
    root: Seq<char>,
    s: Seq<EntryView>,
    f: model::FindingView,
    x: int,
)
    requires
        all_findings(plan, root, s).contains(f),
        f.run.len() <= usize::MAX,
        0 <= x < f.run.len(),
    ensures
        exists|j: int|
            {
                &&& 0 <= j < s.len()
                &&& file_outcome(plan, root, #[trigger] s[j]) is Scanned
                &&& f.run[x].path == path::relative(s[j].path, root)
                &&& s[j].content matches Ok(bytes) && text::byte_slice(
                    vstd::utf8::decode_utf8(bytes),
                    f.run[x].start,
                    f.run[x].end,
                ) == f.run[x].text
            },
{
    law_findings_are_single_matches(plan, root, s, f);
    let j = choose|j: int|
        {
            &&& 0 <= j < s.len()
            &&& !is_repeat(s, j)
            &&& file_outcome(plan, root, #[trigger] s[j]) is Scanned
            &&& comments_in_file(root, s[j]) matches Some(cs)
            &&& is_from(f, cs, path::relative(s[j].path, root))
        };
    law_file_comments_are_where_they_say(root, s[j], f.run[x]);
    assert(file_outcome(plan, root, s[j]) is Scanned);
}

/// The number of the first `k` entries with an outcome for which `f` holds.
pub open spec fn count_upto(
    plan: ScanPlan,
    root: Seq<char>,
    s: Seq<EntryView>,
    k: int,
    f: spec_fn(FileOutcome) -> bool,
) -> nat
    decreases k,
{
    if k <= 0 {
        0
    } else {
        count_upto(plan, root, s, k - 1, f) + (if !is_repeat(s, k - 1) && f(
            file_outcome(plan, root, s[k - 1]),
        ) {
            1nat
        } else {
            0nat
        })
    }
}

/// Whether `stats` counts what became of the first `k` entries.
#[verifier::opaque]
pub open spec fn stats_match(
    plan: ScanPlan,
    root: Seq<char>,
    s: Seq<EntryView>,
    k: int,
    stats: ScanStats,
) -> bool {
    &&& stats.files == count_upto(
        plan,
        root,
        s,
        k,
        |o: FileOutcome| o is Scanned,
    )
    &&& stats.skipped_non_utf8 == count_upto(plan, root, s, k, |o: FileOutcome| o is NotText)
    &&& stats.skipped_too_large == count_upto(plan, root, s, k, |o: FileOutcome| o is TooLarge)
    &&& stats.skipped_unsupported == count_upto(plan, root, s, k, |o: FileOutcome| o is Unsupported)
    &&& stats.skipped_grammar == count_upto(plan, root, s, k, |o: FileOutcome| o is NoGrammar)
}

/// One when `b` holds, else zero.
pub open spec fn one_if(b: bool) -> int {
    if b {
        1
    } else {
        0
    }
}

/// Whether `after` counts one more file than `before`, with outcome `o`.
pub open spec fn counts_outcome(before: ScanStats, after: ScanStats, o: FileOutcome) -> bool {
    &&& after.findings == before.findings
    &&& after.files == before.files + one_if(o is Scanned)
    &&& after.skipped_non_utf8 == before.skipped_non_utf8 + one_if(o is NotText)
    &&& after.skipped_too_large == before.skipped_too_large + one_if(o is TooLarge)
    &&& after.skipped_unsupported == before.skipped_unsupported + one_if(o is Unsupported)
    &&& after.skipped_grammar == before.skipped_grammar + one_if(o is NoGrammar)
}

/// A count never exceeds the number of entries.
proof fn lemma_count_bound(
    plan: ScanPlan,
    root: Seq<char>,
    s: Seq<EntryView>,
    k: int,
    f: spec_fn(FileOutcome) -> bool,
)
    requires
        0 <= k,
    ensures
        count_upto(plan, root, s, k, f) <= k,
    decreases k,
{
    if k > 0 {
        lemma_count_bound(plan, root, s, k - 1, f);
    }
}

/// The path by which a finding is sorted.
pub open spec fn finding_path(f: model::FindingView) -> Seq<char> {
    if f.run.len() > 0 {
        f.run[0].path
    } else {
        Seq::empty()
    }
}

/// The line by which a finding is sorted.
pub open spec fn finding_line(f: model::FindingView) -> int {
    if 0 <= f.primary < f.run.len() {
        f.run[f.primary].line
    } else {
        0
    }
}

impl Ranked for Finding {
    open spec fn rank(a: model::FindingView, b: model::FindingView) -> int {
        let p = path::path_order(finding_path(a), finding_path(b));
        if p != 0 {
            p
        } else {
            finding_line(a) - finding_line(b)
        }
    }

    proof fn rank_is_total(a: model::FindingView, b: model::FindingView) {
        path::lemma_path_order(finding_path(a), finding_path(b));
        path::lemma_path_order(finding_path(b), finding_path(a));
    }

    proof fn rank_is_transitive(
        a: model::FindingView,
        b: model::FindingView,
        c: model::FindingView,
    ) {
        let x = finding_path(a);
        let y = finding_path(b);
        let z = finding_path(c);
        path::lemma_path_transitive(x, y, z);
        path::lemma_path_order(x, y);
        path::lemma_path_order(y, z);
        path::lemma_path_order(x, z);
        if path::path_order(x, z) == 0 {
            path::lemma_path_order(z, y);
            path::lemma_path_order(y, x);
            if path::path_order(x, y) < 0 {
                path::lemma_path_transitive(y, z, x);
            }
        }
    }

    fn not_after(&self, other: &Self) -> (r: bool) {
        let empty = String::new();
        let a = if self.run.comments.len() > 0 {
            self.run.comments[0].path.as_str()
        } else {
            empty.as_str()
        };
        let b = if other.run.comments.len() > 0 {
            other.run.comments[0].path.as_str()
        } else {
            empty.as_str()
        };
        assert(a@ == finding_path(self@));
        assert(b@ == finding_path(other@));
        match path::rank_paths(a, b) {
            Rank::Before => true,
            Rank::After => false,
            Rank::Same => {
                let x: usize = if self.primary < self.run.comments.len() {
                    self.run.comments[self.primary].line
                } else {
                    0
                };
                let y: usize = if other.primary < other.run.comments.len() {
                    other.run.comments[other.primary].line
                } else {
                    0
                };
                x <= y
            },
        }
    }
}

/// Appends `more` to `out`.
fn extend_findings(out: &mut Vec<Finding>, more: &Vec<Finding>)
    ensures
        order::views(final(out)@) == order::views(old(out)@) + order::views(more@),
        all_wf(old(out)@) && all_wf(more@) ==> all_wf(final(out)@),
{
    let ghost before = order::views(out@);
    let ghost sound = all_wf(out@) && all_wf(more@);
    let mut i: usize = 0;
    while i < more.len()
        invariant
            i <= more.len(),
            sound ==> all_wf(out@) && all_wf(more@),
            order::views(out@) == before + order::views(more@).take(i as int),
        decreases more.len() - i,
    {
        let ghost step = out@;
        let f = more[i].clone();
        out.push(f);
        proof {
            assert(order::views(out@) == order::views(step).push(f@));
            assert(order::views(more@)[i as int] == f@);
        }
        i += 1;
    }
    assert(order::views(more@).take(more.len() as int) == order::views(more@));
}

/// Scans repositories for marker comments.
///
/// Constructing a scanner compiles the [`MatchConfig`] once; [`Scanner::scan`]
/// can then be called repeatedly (e.g. after the user edits files).
#[derive(Debug)]
pub struct Scanner {
    matcher: Matcher,
    options: ScanOptions,
}

impl Scanner {
    /// The settings of this scanner's passes.
    pub closed spec fn plan(self) -> ScanPlan {
        ScanPlan {
            matcher: self.matcher@,
            max_file_bytes: self.options.max_file_bytes as int,
        }
    }

    /// Creates a scanner for the given options.
    ///
    /// # Errors
    ///
    /// Returns an error if the options' match configuration is invalid.
    pub fn new(options: ScanOptions) -> (r: Result<Self, ScanError>)
        ensures
            match r {
                Ok(scanner) => {
                    &&& options.match_config@.compiles()
                    &&& scanner.plan() == (ScanPlan {
                        matcher: options.match_config@.matcher(),
                        max_file_bytes: options.max_file_bytes as int,
                    })
                },
                Err(ScanError::MatchConfig(e)) => !options.match_config@.compiles()
                    && options.match_config@.refused_with(e),
                Err(_) => false,
            },
            options.match_config@.is_simple() ==> r is Ok,
    {
        match options.match_config.compile() {
            Ok(matcher) => Ok(Scanner { matcher, options }),
            Err(e) => Err(ScanError::MatchConfig(e)),
        }
    }

    /// Scans the files of the repository rooted at `root`, returning findings
    /// sorted by path then line. The files may come in any order; a file that
    /// comes more than once is scanned once.
    ///
    /// # Errors
    ///
    /// Returns an error for the first file, by path, that cannot be read or
    /// parsed.
    pub fn scan(&self, root: &str, files: Vec<FileEntry>) -> (r: Result<ScanResult, ScanError>)
        ensures
            ({
                let s = order::sorted::<FileEntry>(order::views(files@));
                let plan = self.plan();
                let fatal = first_fatal(plan, root@, s, s.len() as int);
                match r {
                    Ok(result) => {
                        &&& fatal is None
                        &&& order::views(result.findings@) == all_findings(plan, root@, s)
                        &&& order::is_sorted::<Finding>(order::views(result.findings@))
                        &&& all_wf(result.findings@)
                        &&& result.stats.findings == result.findings@.len()
                        &&& stats_match(plan, root@, s, s.len() as int, result.stats)
                    },
                    Err(ScanError::Read { path, source }) => {
                        &&& fatal matches Some(k)
                        &&& path@ == s[k].path
                        &&& file_outcome(plan, root@, s[k]) == FileOutcome::Unreadable(source@)
                    },
                    Err(ScanError::Parse { path, language }) => {
                        &&& fatal matches Some(k)
                        &&& file_outcome(plan, root@, s[k]) is Unparsed
                        &&& path@ == path::relative(s[k].path, root@)
                        &&& language::grammar_for(s[k].path) matches Some(g)
                        &&& language@ == language::id_of(g)
                    },
                    Err(_) => false,
                }
            }),
    {
        let entries = order::sort_stable(files);
        let ghost plan = self.plan();
        let ghost s = order::views(entries@);
        let ghost total = s.len() as int;
        let mut stats = ScanStats::default();
        let mut findings: Vec<Finding> = Vec::new();
        let mut i: usize = 0;
        proof {
            reveal(stats_match);
        }
        while i < entries.len()
            invariant
                i <= entries.len(),
                plan == self.plan(),
                s == order::views(entries@),
                s == order::sorted::<FileEntry>(order::views(files@)),
                total == s.len(),
                first_fatal(plan, root@, s, i as int) is None,
                order::views(findings@) == findings_upto(plan, root@, s, i as int),
                all_wf(findings@),
                stats_match(plan, root@, s, i as int, stats),
            decreases entries.len() - i,
        {
            let entry = &entries[i];
            let ghost before = stats;
            assert(s[i as int] == entry@);
            let repeat = i > 0 && path::same_path(
                entries[i - 1].path.as_str(),
                entry.path.as_str(),
            );
            proof {
                if i > 0 {
                    assert(s[i - 1] == entries@[i - 1]@);
                }
                assert(repeat == is_repeat(s, i as int));
                self.lemma_counts(root@, s, i as int, stats);
            }
            if repeat {
                proof {
                    self.lemma_stats_repeat(root@, s, i as int, stats);
                    assert(order::views(findings@) + Seq::<model::FindingView>::empty()
                        == order::views(findings@));
                }
            } else {
                match self.scan_file(root, entry, &mut stats) {
                    Ok(found) => {
                        extend_findings(&mut findings, &found);
                        proof {
                            self.lemma_stats_step(root@, s, i as int, before, stats);
                        }
                    },
                    Err(err) => {
                        proof {
                            self.lemma_fatal(root@, s, i + 1, total);
                        }
                        return Err(err);
                    },
                }
            }
            i += 1;
        }
        let sorted = order::sort_stable(findings);
        stats.findings = sorted.len();
        proof {
            reveal(stats_match);
            let p = |f: model::FindingView| f.wf();
            let found = order::views(findings@);
            assert forall|k: int| 0 <= k < found.len() implies p(#[trigger] found[k]) by {
                assert(found[k] == findings@[k]@);
            }
            order::lemma_sorted_all::<Finding>(found, p);
            order::law_sorted::<Finding>(found);
            assert forall|k: int| 0 <= k < sorted@.len() implies (#[trigger] sorted@[k])@.wf() by {
                assert(order::views(sorted@)[k] == sorted@[k]@);
                assert(p(order::views(sorted@)[k]));
            }
        }
        Ok(ScanResult { findings: sorted, stats })
    }

    /// Counts stay within the number of entries.
    proof fn lemma_counts(self, root: Seq<char>, s: Seq<EntryView>, k: int, stats: ScanStats)
        requires
            0 <= k,
            stats_match(self.plan(), root, s, k, stats),
        ensures
            stats.files <= k,
            stats.skipped_non_utf8 <= k,
            stats.skipped_too_large <= k,
            stats.skipped_unsupported <= k,
            stats.skipped_grammar <= k,
    {
        reveal(stats_match);
        let plan = self.plan();
        lemma_count_bound(plan, root, s, k, |o: FileOutcome| o is Scanned);
        lemma_count_bound(plan, root, s, k, |o: FileOutcome| o is NotText);
        lemma_count_bound(plan, root, s, k, |o: FileOutcome| o is TooLarge);
        lemma_count_bound(plan, root, s, k, |o: FileOutcome| o is Unsupported);
        lemma_count_bound(plan, root, s, k, |o: FileOutcome| o is NoGrammar);
    }

    /// An entry that repeats a path changes no count.
    proof fn lemma_stats_repeat(self, root: Seq<char>, s: Seq<EntryView>, k: int, stats: ScanStats)
        requires
            0 <= k,
            is_repeat(s, k),
            stats_match(self.plan(), root, s, k, stats),
        ensures
            stats_match(self.plan(), root, s, k + 1, stats),
    {
        reveal(stats_match);
    }

    /// A scanned entry changes the counts by what became of it.
    proof fn lemma_stats_step(
        self,
        root: Seq<char>,
        s: Seq<EntryView>,
        k: int,
        before: ScanStats,
        after: ScanStats,
    )
        requires
            0 <= k,
            !is_repeat(s, k),
            stats_match(self.plan(), root, s, k, before),
            counts_outcome(before, after, file_outcome(self.plan(), root, s[k])),
        ensures
            stats_match(self.plan(), root, s, k + 1, after),
    {
        reveal(stats_match);
    }

    /// The first fatal entry stays the first.
    proof fn lemma_fatal(self, root: Seq<char>, s: Seq<EntryView>, i: int, k: int)
        requires
            0 <= i <= k,
            first_fatal(self.plan(), root, s, i) is Some,
        ensures
            first_fatal(self.plan(), root, s, k) == first_fatal(self.plan(), root, s, i),
        decreases k - i,
    {
        if i < k {
            self.lemma_fatal(root, s, i, k - 1);
        }
    }

    /// Scans one file and counts what became of it.
    fn scan_file(&self, root: &str, entry: &FileEntry, stats: &mut ScanStats) -> (r: Result<
        Vec<Finding>,
        ScanError,
    >)
        requires
            old(stats).files < usize::MAX,
            old(stats).skipped_non_utf8 < usize::MAX,
            old(stats).skipped_too_large < usize::MAX,
            old(stats).skipped_unsupported < usize::MAX,
            old(stats).skipped_grammar < usize::MAX,
        ensures
            ({
                let o = file_outcome(self.plan(), root@, entry@);
                match r {
                    Ok(found) => {
                        &&& !is_fatal(o)
                        &&& order::views(found@) == (match o {
                            FileOutcome::Scanned(fs) => fs,
                            _ => Seq::empty(),
                        })
                        &&& counts_outcome(*old(stats), *final(stats), o)
                        &&& all_wf(found@)
                    },
                    Err(ScanError::Read { path, source }) => path@ == entry.path@ && o
                        == FileOutcome::Unreadable(source@),
                    Err(ScanError::Parse { path, language }) => {
                        &&& o is Unparsed
                        &&& path@ == path::relative(entry.path@, root@)
                        &&& language::grammar_for(entry.path@) matches Some(g)
                        &&& language@ == language::id_of(g)
                    },
                    Err(_) => false,
                }
            }),
    {
        let lang = match language::by_extension(entry.path.as_str()) {
            Some(lang) => lang,
            None => {
                stats.skipped_unsupported = stats.skipped_unsupported + 1;
                return Ok(Vec::new());
            },
        };
        let bytes = match &entry.content {
            Ok(bytes) => bytes,
            Err(message) => {
                return Err(ScanError::Read { path: entry.path.clone(), source: message.clone() });
            },
        };
        if bytes.len() > self.options.max_file_bytes {
            stats.skipped_too_large = stats.skipped_too_large + 1;
            return Ok(Vec::new());
        }
        let source = match text::decode_bytes(bytes.as_slice()) {
            Some(source) => source,
            None => {
                stats.skipped_non_utf8 = stats.skipped_non_utf8 + 1;
                return Ok(Vec::new());
            },
        };
        let relative = path::relative_to(entry.path.as_str(), root);
        match self.parse_comments(relative.as_str(), &lang, source.as_str()) {
            Ok(comments) => {
                stats.files = stats.files + 1;
                Ok(self.find(&comments))
            },
            Err(ScanError::Grammar { .. }) => {
                stats.skipped_grammar = stats.skipped_grammar + 1;
                Ok(Vec::new())
            },
            Err(err) => Err(err),
        }
    }

    /// The comments of one file.
    fn parse_comments(&self, path: &str, lang: &Language, source: &str) -> (r: Result<
        Vec<Comment>,
        ScanError,
    >)
        ensures
            ({
                let outcome = source_comments(
                    path@,
                    lang.id@,
                    language::words(lang.comment_kinds@),
                    source@,
                );
                match r {
                    Ok(comments) => outcome == Comments::Found(order::views(comments@)),
                    Err(ScanError::Grammar { .. }) => outcome is NoGrammar,
                    Err(ScanError::Parse { path: p, language }) => outcome is Unparsed && p@
                        == path@ && language@ == lang.id@,
                    Err(_) => false,
                }
            }),
    {
        parse_comment_nodes(path, lang, source)
    }

    /// The findings among the comments of one file.
    fn find(&self, comments: &Vec<Comment>) -> (r: Vec<Finding>)
        ensures
            order::views(r@) == findings_in(
                self.plan().matcher,
                runs_of(order::views(comments@)),
            ),
            all_wf(r@),
    {
        let runs = group_runs(comments);
        let ghost m = self.plan().matcher;
        let ghost all = run_views(runs@);
        let mut out: Vec<Finding> = Vec::new();
        let mut i: usize = 0;
        while i < runs.len()
            invariant
                i <= runs.len(),
                m == self.plan().matcher,
                all == run_views(runs@),
                order::views(out@) == findings_in(m, all.take(i as int)),
                all_wf(out@),
            decreases runs.len() - i,
        {
            let found = matched_segments(&runs[i], &self.matcher);
            proof {
                assert(all.take(i + 1).drop_last() == all.take(i as int));
                assert(all.take(i + 1).last() == runs@[i as int]@);
            }
            extend_findings(&mut out, &found);
            i += 1;
        }
        assert(all.take(runs.len() as int) == all);
        out
    }
}

} // verus!
