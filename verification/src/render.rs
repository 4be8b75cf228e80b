//! Rendering context lines with ANSI colors.
//!
//! The renderer composes two layers per line: syntax-highlight spans
//! (foreground colors) and the selection overlay (background color).

use crate::context;
use crate::context::{Context, ContextLine};
use crate::highlight::HighlightSpan;
use crate::order;
use crate::text;
use std::ops::Range;
use vstd::prelude::*;
use vstd::string::*;

verus! {

/// ANSI escape that ends all styles.
pub const RESET: &'static str = "\x1b[0m";

/// ANSI escape for bold text.
pub const BOLD: &'static str = "\x1b[1m";

/// The background color used to mark the selected comment range.
pub const SELECTION_BG: (u8, u8, u8) = (38, 46, 58);

/// The gutter color for line numbers.
pub const GUTTER_FG: (u8, u8, u8) = (90, 100, 110);

/// The color of a category in a finding header.
pub const CATEGORY_FG: (u8, u8, u8) = (220, 160, 70);

/// Three numbers with semicolons between them.
pub open spec fn rgb_text(c: (u8, u8, u8)) -> Seq<char> {
    text::decimal(c.0 as nat) + ";"@ + text::decimal(c.1 as nat) + ";"@ + text::decimal(c.2 as nat)
}

/// ANSI escape for a truecolor foreground.
pub open spec fn fg_text(c: (u8, u8, u8)) -> Seq<char> {
    "\x1b[38;2;"@ + rgb_text(c) + "m"@
}

/// ANSI escape for a truecolor background.
pub open spec fn bg_text(c: (u8, u8, u8)) -> Seq<char> {
    "\x1b[48;2;"@ + rgb_text(c) + "m"@
}

/// Appends three numbers with semicolons between them.
fn push_rgb(out: &mut String, color: (u8, u8, u8))
    ensures
        final(out)@ == old(out)@ + rgb_text(color),
{
    let ghost before = out@;
    out.append(text::decimal_string(color.0 as usize).as_str());
    out.append(";");
    out.append(text::decimal_string(color.1 as usize).as_str());
    out.append(";");
    out.append(text::decimal_string(color.2 as usize).as_str());
    assert(out@ == before + rgb_text(color));
}

/// ANSI escape for a truecolor foreground.
pub fn fg(color: (u8, u8, u8)) -> (r: String)
    ensures
        r@ == fg_text(color),
{
    let mut s = "\x1b[38;2;".to_owned();
    push_rgb(&mut s, color);
    s.append("m");
    s
}

/// ANSI escape for a truecolor background.
pub fn bg(color: (u8, u8, u8)) -> (r: String)
    ensures
        r@ == bg_text(color),
{
    let mut s = "\x1b[48;2;".to_owned();
    push_rgb(&mut s, color);
    s.append("m");
    s
}

/// Whether a byte offset lies inside a range.
pub open spec fn is_in(offset: int, range: Range<usize>) -> bool {
    range.start <= offset < range.end
}

/// Whether a byte offset lies inside a range.
pub fn in_range(offset: u128, range: &Range<usize>) -> (r: bool)
    ensures
        r == is_in(offset as int, *range),
{
    offset >= range.start as u128 && offset < range.end as u128
}

/// The resolved style at one character position: syntax color plus whether
/// the selection covers it.
#[derive(Debug, Clone, Copy, PartialEq, Eq)]
pub struct CharStyle {
    /// Foreground color.
    pub fg: Option<(u8, u8, u8)>,
    /// Bold text.
    pub bold: bool,
    /// Whether the selection covers the position.
    pub selected: bool,
}

/// The last of the first `k` spans that holds `offset`.
pub open spec fn span_at(spans: Seq<HighlightSpan>, offset: int, k: int) -> Option<HighlightSpan>
    decreases k,
{
    if k <= 0 {
        None
    } else if is_in(offset, spans[k - 1].range) {
        Some(spans[k - 1])
    } else {
        span_at(spans, offset, k - 1)
    }
}

/// Which span [`span_at`] finds: the last one that holds the offset.
pub proof fn lemma_span_at(spans: Seq<HighlightSpan>, offset: int, n: int)
    requires
        0 <= n <= spans.len(),
    ensures
        match span_at(spans, offset, n) {
            None => forall|i: int|
                0 <= i < n ==> !((#[trigger] spans[i]).range.start <= offset < spans[i].range.end),
            Some(span) => exists|i: int|
                {
                    &&& 0 <= i < n
                    &&& span == #[trigger] spans[i]
                    &&& spans[i].range.start <= offset < spans[i].range.end
                    &&& forall|j: int|
                        i < j < n ==> !((#[trigger] spans[j]).range.start <= offset
                            < spans[j].range.end)
                },
        },
    decreases n,
{
    if n > 0 {
        if is_in(offset, spans[n - 1].range) {
            assert(spans[n - 1].range.start <= offset < spans[n - 1].range.end);
        } else {
            lemma_span_at(spans, offset, n - 1);
        }
    }
}

/// The style at a byte offset of the file.
pub open spec fn style_of(
    spans: Seq<HighlightSpan>,
    selection: Range<usize>,
    offset: int,
) -> CharStyle {
    let span = span_at(spans, offset, spans.len() as int);
    CharStyle {
        fg: match span {
            Some(s) => s.fg,
            None => None,
        },
        bold: match span {
            Some(s) => s.bold,
            None => false,
        },
        selected: is_in(offset, selection),
    }
}

/// The last span that holds the byte `offset` of the file.
pub fn span_holding<'a>(spans: &'a [HighlightSpan], offset: u128) -> (r: Option<&'a HighlightSpan>)
    ensures
        match r {
            Some(s) => span_at(spans@, offset as int, spans@.len() as int) == Some(*s),
            None => span_at(spans@, offset as int, spans@.len() as int) is None,
        },
{
    let mut k: usize = spans.len();
    while k > 0
        invariant
            k <= spans@.len(),
            span_at(spans@, offset as int, spans@.len() as int) == span_at(
                spans@,
                offset as int,
                k as int,
            ),
        decreases k,
    {
        let span = &spans[k - 1];
        if in_range(offset, &span.range) {
            return Some(span);
        }
        k -= 1;
    }
    None
}

/// The style at a byte offset of the file.
fn resolve_style(spans: &[HighlightSpan], selection: &Range<usize>, offset: u128) -> (r: CharStyle)
    ensures
        r == style_of(spans@, *selection, offset as int),
{
    let selected = in_range(offset, selection);
    match span_holding(spans, offset) {
        Some(span) => CharStyle { fg: span.fg, bold: span.bold, selected },
        None => CharStyle { fg: None, bold: false, selected },
    }
}

/// The escapes that switch to a style.
pub open spec fn style_text(style: CharStyle) -> Seq<char> {
    RESET@ + (if style.selected {
        bg_text(SELECTION_BG)
    } else {
        Seq::empty()
    }) + (match style.fg {
        Some(c) => fg_text(c),
        None => Seq::empty(),
    }) + (if style.bold {
        BOLD@
    } else {
        Seq::empty()
    })
}

/// Appends the escapes that switch to a style.
fn push_style(out: &mut String, style: CharStyle)
    ensures
        final(out)@ == old(out)@ + style_text(style),
{
    let ghost before = out@;
    out.append(RESET);
    if style.selected {
        out.append(bg(SELECTION_BG).as_str());
    }
    let ghost second = out@;
    assert(second == before + (RESET@ + (if style.selected {
        bg_text(SELECTION_BG)
    } else {
        Seq::empty()
    })));
    if let Some(color) = style.fg {
        out.append(fg(color).as_str());
    }
    let ghost third = out@;
    assert(third == second + (match style.fg {
        Some(c) => fg_text(c),
        None => Seq::empty(),
    }));
    if style.bold {
        out.append(BOLD);
    }
    assert(out@ == third + (if style.bold {
        BOLD@
    } else {
        Seq::empty()
    }));
    assert(out@ == before + style_text(style));
}

/// The style of character `k` of a line that starts at byte `base`.
pub open spec fn char_style(
    line: Seq<char>,
    base: int,
    spans: Seq<HighlightSpan>,
    selection: Range<usize>,
    k: int,
) -> CharStyle {
    style_of(spans, selection, base + text::byte_len(line.take(k)))
}

/// The first `k` characters of a line with their styles: a style is switched
/// to at the first character and wherever it changes.
pub open spec fn styled(
    line: Seq<char>,
    base: int,
    spans: Seq<HighlightSpan>,
    selection: Range<usize>,
    k: int,
) -> Seq<char>
    decreases k,
{
    if k <= 0 {
        Seq::empty()
    } else {
        let style = char_style(line, base, spans, selection, k - 1);
        let fresh = k == 1 || style != char_style(line, base, spans, selection, k - 2);
        styled(line, base, spans, selection, k - 1) + (if fresh {
            style_text(style)
        } else {
            Seq::empty()
        }) + seq![line[k - 1]]
    }
}

/// A style is written as a reset, the background of the selection, the color
/// of the text and boldness, each where it applies.
pub proof fn law_styles_are_written_in_full(style: CharStyle)
    ensures
        style_text(style) == "\x1b[0m"@ + (if style.selected {
            "\x1b[48;2;"@ + text::decimal(38) + ";"@ + text::decimal(46) + ";"@ + text::decimal(58)
                + "m"@
        } else {
            Seq::empty()
        }) + (match style.fg {
            Some(c) => "\x1b[38;2;"@ + text::decimal(c.0 as nat) + ";"@ + text::decimal(
                c.1 as nat,
            ) + ";"@ + text::decimal(c.2 as nat) + "m"@,
            None => Seq::empty(),
        }) + (if style.bold {
            "\x1b[1m"@
        } else {
            Seq::empty()
        }),
{
    if style.selected {
        assert(bg_text(SELECTION_BG) == "\x1b[48;2;"@ + text::decimal(38) + ";"@ + text::decimal(46)
            + ";"@ + text::decimal(58) + "m"@);
    }
    if let Some(c) = style.fg {
        assert(fg_text(c) == "\x1b[38;2;"@ + text::decimal(c.0 as nat) + ";"@ + text::decimal(
            c.1 as nat,
        ) + ";"@ + text::decimal(c.2 as nat) + "m"@);
    }
}

/// The style of a character is written before it when it is the first of its
/// line or has another style than the one before it, and only then.
pub proof fn law_styles_are_written_where_they_change(
    line: Seq<char>,
    base: int,
    spans: Seq<HighlightSpan>,
    selection: Range<usize>,
    k: int,
)
    requires
        0 <= k < line.len(),
    ensures
        ({
            let before = styled(line, base, spans, selection, k);
            let after = styled(line, base, spans, selection, k + 1);
            let style = char_style(line, base, spans, selection, k);
            &&& k == 0 ==> after == style_text(style) + seq![line[0]]
            &&& k > 0 && style == char_style(line, base, spans, selection, k - 1) ==> after
                == before + seq![line[k]]
            &&& k > 0 && style != char_style(line, base, spans, selection, k - 1) ==> after
                == before + style_text(style) + seq![line[k]]
        }),
{
    let before = styled(line, base, spans, selection, k);
    let style = char_style(line, base, spans, selection, k);
    assert(before + Seq::<char>::empty() == before);
    assert(Seq::<char>::empty() + style_text(style) == style_text(style));
}

/// Whether two styles are the same.
fn same_style(a: CharStyle, b: CharStyle) -> (r: bool)
    ensures
        r == (a == b),
{
    let colors = match (a.fg, b.fg) {
        (Some(x), Some(y)) => x.0 == y.0 && x.1 == y.1 && x.2 == y.2,
        (None, None) => true,
        _ => false,
    };
    colors && a.bold == b.bold && a.selected == b.selected
}

/// Renders the line body with per-character style resolution.
fn render_colored(
    line_text: &str,
    line_byte_offset: usize,
    spans: &[HighlightSpan],
    selection: &Range<usize>,
) -> (r: String)
    ensures
        r@ == styled(
            line_text@,
            line_byte_offset as int,
            spans@,
            *selection,
            line_text@.len() as int,
        ),
{
    let cs = text::chars_of(line_text);
    let mut out = String::new();
    let mut current = CharStyle { fg: None, bold: false, selected: false };
    let mut offset: u128 = line_byte_offset as u128;
    let mut i: usize = 0;
    assert(cs@.take(0) == Seq::<char>::empty());
    while i < cs.len()
        invariant
            i <= cs.len(),
            cs@ == line_text@,
            text::byte_len(cs@) <= usize::MAX,
            offset == line_byte_offset + text::byte_len(cs@.take(i as int)),
            i > 0 ==> current == char_style(
                cs@,
                line_byte_offset as int,
                spans@,
                *selection,
                i - 1,
            ),
            out@ == styled(cs@, line_byte_offset as int, spans@, *selection, i as int),
        decreases cs.len() - i,
    {
        let style = resolve_style(spans, selection, offset);
        let ghost before = out@;
        if i == 0 || !same_style(style, current) {
            push_style(&mut out, style);
            current = style;
        } else {
            assert(before + Seq::<char>::empty() == before);
        }
        let ghost switched = out@;
        out.push(cs[i]);
        proof {
            assert(out@ == switched + seq![cs@[i as int]]);
            assert(cs@.take(i + 1).drop_last() == cs@.take(i as int));
            text::lemma_byte_len_prefix(cs@, i as int, i + 1);
        }
        offset = offset + text::width_of(cs[i]) as u128;
        i += 1;
    }
    out
}

/// Whether the selection covers any byte of a line of `len` bytes that starts
/// at byte `base`.
pub open spec fn overlaps(base: int, len: int, selection: Range<usize>) -> bool {
    selection.start < base + len && selection.end > base
}

/// Whether the selection covers any byte of the line at `line_byte_offset`.
fn selection_overlaps_line(
    line_byte_offset: usize,
    line_len: usize,
    selection: &Range<usize>,
) -> (r: bool)
    ensures
        r == overlaps(line_byte_offset as int, line_len as int, *selection),
{
    let line_end: u128 = line_byte_offset as u128 + line_len as u128;
    (selection.start as u128) < line_end && selection.end > line_byte_offset
}

/// `n` spaces.
pub open spec fn spaces(n: int) -> Seq<char> {
    Seq::new(
        if n > 0 {
            n as nat
        } else {
            0
        },
        |i: int| ' ',
    )
}

/// A number right-aligned in a field of `width` characters.
pub open spec fn padded(n: nat, width: int) -> Seq<char> {
    spaces(width - text::decimal(n).len()) + text::decimal(n)
}

/// A number right-aligned in a field of `width` characters.
pub fn pad_number(n: usize, width: usize) -> (r: String)
    ensures
        r@ == padded(n as nat, width as int),
{
    let digits = text::decimal_chars(n);
    let mut out = String::new();
    let mut i: usize = digits.len();
    assert(out@ == spaces(0));
    while i < width
        invariant
            digits@ == text::decimal(n as nat),
            i >= digits.len(),
            i <= width || i == digits.len(),
            out@ == spaces(i - digits.len()),
        decreases width - i,
    {
        let ghost before = out@;
        out.push(' ');
        assert(out@ == spaces(i + 1 - digits.len()));
        i += 1;
    }
    assert(out@ == spaces(width - digits.len()));
    out.append(text::string_of(&digits).as_str());
    out
}

/// The gutter of a context line.
pub open spec fn gutter_text(marked: bool, number: nat, color: bool, width: int) -> Seq<char> {
    (if marked {
        " > "@
    } else {
        "   "@
    }) + (if color {
        fg_text(GUTTER_FG) + padded(number, width) + RESET@
    } else {
        padded(number, width)
    }) + " │ "@
}

/// A rendered context line.
pub open spec fn line_text_of(
    line: Seq<char>,
    number: nat,
    base: int,
    spans: Seq<HighlightSpan>,
    selection: Range<usize>,
    color: bool,
    width: int,
) -> Seq<char> {
    gutter_text(overlaps(base, text::byte_len(line) as int, selection), number, color, width) + (
    if color {
        styled(line, base, spans, selection, line.len() as int) + RESET@
    } else {
        line
    })
}

/// Renders one context line.
///
/// In colored mode the line is prefixed by a gutter with the line number,
/// syntax colors are applied from `spans`, and the `selection` range (file
/// bytes) gets a background highlight. In plain mode the output contains no
/// ANSI escapes and the selected marker is `>`.
pub fn render_context_line(
    line_text: &str,
    line_number: usize,
    line_byte_offset: usize,
    spans: &[HighlightSpan],
    selection: &Range<usize>,
    color: bool,
    gutter_width: usize,
) -> (r: String)
    ensures
        r@ == line_text_of(
            line_text@,
            line_number as nat,
            line_byte_offset as int,
            spans@,
            *selection,
            color,
            gutter_width as int,
        ),
{
    let marked = selection_overlaps_line(line_byte_offset, text::str_bytes(line_text), selection);
    let mut out = if marked {
        " > ".to_owned()
    } else {
        "   ".to_owned()
    };
    let ghost marker = out@;
    let number = pad_number(line_number, gutter_width);
    if color {
        out.append(fg(GUTTER_FG).as_str());
        out.append(number.as_str());
        out.append(RESET);
        assert(out@ == marker + (fg_text(GUTTER_FG) + padded(
            line_number as nat,
            gutter_width as int,
        ) + RESET@));
    } else {
        out.append(number.as_str());
    }
    out.append(" │ ");
    let ghost gutter = out@;
    if color {
        let body = render_colored(line_text, line_byte_offset, spans, selection);
        out.append(body.as_str());
        out.append(RESET);
        assert(out@ == gutter + (body@ + RESET@));
    } else {
        out.append(line_text);
    }
    out
}

/// The number of digits of the largest of the first `k` line numbers, at
/// least one.
pub open spec fn gutter_width(ls: Seq<context::LineView>, k: int) -> nat
    decreases k,
{
    if k <= 0 {
        1
    } else {
        let d = text::decimal(ls[k - 1].line as nat).len();
        let w = gutter_width(ls, k - 1);
        if d > w {
            d
        } else {
            w
        }
    }
}

/// The first `k` lines of a rendered context block.
pub open spec fn block_text(
    ls: Seq<context::LineView>,
    spans: Seq<HighlightSpan>,
    selection: Range<usize>,
    color: bool,
    width: int,
    k: int,
) -> Seq<char>
    decreases k,
{
    if k <= 0 {
        Seq::empty()
    } else {
        block_text(ls, spans, selection, color, width, k - 1) + line_text_of(
            ls[k - 1].text,
            ls[k - 1].line as nat,
            ls[k - 1].start,
            spans,
            selection,
            color,
            width,
        ) + "\n"@
    }
}

/// A rendered context block: every line with its gutter, as wide as the
/// largest line number.
pub open spec fn context_text(
    ls: Seq<context::LineView>,
    spans: Seq<HighlightSpan>,
    selection: Range<usize>,
    color: bool,
) -> Seq<char> {
    block_text(
        ls,
        spans,
        selection,
        color,
        gutter_width(ls, ls.len() as int) as int,
        ls.len() as int,
    )
}

/// The number of digits of the largest line number, at least one.
pub fn widest_number(lines: &Vec<ContextLine>) -> (r: usize)
    ensures
        r == gutter_width(order::views(lines@), lines@.len() as int),
{
    let ghost ls = order::views(lines@);
    let mut width: usize = 1;
    let mut i: usize = 0;
    while i < lines.len()
        invariant
            i <= lines.len(),
            ls == order::views(lines@),
            width == gutter_width(ls, i as int),
        decreases lines.len() - i,
    {
        let digits: usize = text::decimal_chars(lines[i].line).len();
        assert(ls[i as int] == lines@[i as int]@);
        if digits > width {
            width = digits;
        }
        i += 1;
    }
    width
}

/// Renders a full context block (gutter + lines).
pub fn render_context(context: &Context, spans: &[HighlightSpan], color: bool) -> (r: String)
    ensures
        r@ == context_text(order::views(context.lines@), spans@, context.selection, color),
{
    let ghost ls = order::views(context.lines@);
    let width: usize = widest_number(&context.lines);
    let mut out = String::new();
    let mut k: usize = 0;
    while k < context.lines.len()
        invariant
            k <= context.lines.len(),
            ls == order::views(context.lines@),
            out@ == block_text(ls, spans@, context.selection, color, width as int, k as int),
        decreases context.lines.len() - k,
    {
        let line = &context.lines[k];
        assert(ls[k as int] == line@);
        let rendered = render_context_line(
            line.text.as_str(),
            line.line,
            line.byte_range.start,
            spans,
            &context.selection,
            color,
            width,
        );
        out.append(rendered.as_str());
        out.append("\n");
        k += 1;
    }
    out
}

/// The header line of a finding.
pub open spec fn header_text(
    path: Seq<char>,
    line: nat,
    category: Seq<char>,
    color: bool,
) -> Seq<char> {
    if color {
        BOLD@ + path + ":"@ + text::decimal(line) + ":"@ + RESET@ + " "@ + fg_text(CATEGORY_FG)
            + category + RESET@
    } else {
        path + ":"@ + text::decimal(line) + ": "@ + category
    }
}

/// Renders one line of a compact single-line summary (no gutter).
pub fn render_finding_header(path: &str, line: usize, category: &str, color: bool) -> (r: String)
    ensures
        r@ == header_text(path@, line as nat, category@, color),
{
    if color {
        let mut s = BOLD.to_owned();
        s.append(path);
        s.append(":");
        s.append(text::decimal_string(line).as_str());
        s.append(":");
        s.append(RESET);
        s.append(" ");
        s.append(fg(CATEGORY_FG).as_str());
        s.append(category);
        s.append(RESET);
        s
    } else {
        let mut s = path.to_owned();
        s.append(":");
        s.append(text::decimal_string(line).as_str());
        s.append(": ");
        s.append(category);
        s
    }
}

/// Whether a text holds no escape character.
pub open spec fn no_escape(s: Seq<char>) -> bool {
    forall|i: int| 0 <= i < s.len() ==> #[trigger] s[i] != '\x1b'
}

proof fn lemma_no_escape_concat(a: Seq<char>, b: Seq<char>)
    requires
        no_escape(a),
        no_escape(b),
    ensures
        no_escape(a + b),
{
    let s = a + b;
    assert forall|i: int| 0 <= i < s.len() implies #[trigger] s[i] != '\x1b' by {
        if i < a.len() {
            assert(a[i] != '\x1b');
        } else {
            assert(b[i - a.len()] != '\x1b');
        }
    }
}

proof fn lemma_decimal_no_escape(n: nat)
    ensures
        no_escape(text::decimal(n)),
    decreases n,
{
    assert forall|d: nat| d < 10 implies #[trigger] text::digit_char(d) != '\x1b' by {}
    if n >= 10 {
        lemma_decimal_no_escape(n / 10);
        assert(text::digit_char(n % 10) != '\x1b');
        let s = text::decimal(n);
        assert forall|i: int| 0 <= i < s.len() implies #[trigger] s[i] != '\x1b' by {
            if i < s.len() - 1 {
                assert(text::decimal(n / 10)[i] != '\x1b');
            }
        }
    } else {
        assert(text::digit_char(n) != '\x1b');
    }
}

/// A line is shown, without colors, behind its number, with a `>` before it
/// exactly when the selection takes in a byte of it.
pub proof fn law_plain_lines_show_number_and_text(
    line: Seq<char>,
    number: nat,
    base: int,
    spans: Seq<HighlightSpan>,
    selection: Range<usize>,
    width: int,
)
    ensures
        ({
            let end = base + text::byte_len(line);
            let shown = line_text_of(line, number, base, spans, selection, false, width);
            let marker = if selection.start < end && base < selection.end {
                " > "@
            } else {
                "   "@
            };
            shown == marker + padded(number, width) + " │ "@ + line
        }),
{
}

/// A number is padded with spaces on the left up to the width.
pub proof fn law_numbers_are_right_aligned(n: nat, width: int)
    ensures
        ({
            let s = padded(n, width);
            let d = text::decimal(n);
            &&& s.len() == if d.len() < width {
                width
            } else {
                d.len() as int
            }
            &&& s.skip(s.len() - d.len()) == d
            &&& forall|k: int| 0 <= k < s.len() - d.len() ==> #[trigger] s[k] == ' '
        }),
{
    let s = padded(n, width);
    let d = text::decimal(n);
    assert(s.skip(s.len() - d.len()) == d);
}

/// The gutter is as wide as the longest line number.
pub proof fn law_the_gutter_fits_every_number(ls: Seq<context::LineView>, k: int)
    requires
        0 <= k <= ls.len(),
    ensures
        gutter_width(ls, k) >= 1,
        forall|i: int|
            0 <= i < k ==> text::decimal((#[trigger] ls[i]).line as nat).len() <= gutter_width(
                ls,
                k,
            ),
        gutter_width(ls, k) > 1 ==> exists|i: int|
            0 <= i < k && text::decimal((#[trigger] ls[i]).line as nat).len() == gutter_width(
                ls,
                k,
            ),
    decreases k,
{
    if k > 0 {
        law_the_gutter_fits_every_number(ls, k - 1);
        let d = text::decimal(ls[k - 1].line as nat).len();
        if d <= gutter_width(ls, k - 1) && gutter_width(ls, k) > 1 {
            let i = choose|i: int|
                0 <= i < k - 1 && text::decimal((#[trigger] ls[i]).line as nat).len()
                    == gutter_width(ls, k - 1);
            assert(text::decimal(ls[i].line as nat).len() == gutter_width(ls, k));
        }
    }
}

/// The context of a finding is shown line by line: every line on a line of its
/// own, in order, all with numbers of the same width.
pub proof fn law_context_is_shown_line_by_line(
    ls: Seq<context::LineView>,
    spans: Seq<HighlightSpan>,
    selection: Range<usize>,
    color: bool,
)
    ensures
        ({
            let width = gutter_width(ls, ls.len() as int) as int;
            let shown = Seq::new(
                ls.len(),
                |i: int|
                    line_text_of(
                        ls[i].text,
                        ls[i].line as nat,
                        ls[i].start,
                        spans,
                        selection,
                        color,
                        width,
                    ) + "\n"@,
            );
            context_text(ls, spans, selection, color) == shown.flatten()
        }),
{
    let width = gutter_width(ls, ls.len() as int) as int;
    lemma_block_flat(ls, spans, selection, color, width, ls.len() as int);
}

proof fn lemma_block_flat(
    ls: Seq<context::LineView>,
    spans: Seq<HighlightSpan>,
    selection: Range<usize>,
    color: bool,
    width: int,
    k: int,
)
    requires
        0 <= k <= ls.len(),
    ensures
        block_text(ls, spans, selection, color, width, k) == Seq::new(
            k as nat,
            |i: int|
                line_text_of(
                    ls[i].text,
                    ls[i].line as nat,
                    ls[i].start,
                    spans,
                    selection,
                    color,
                    width,
                ) + "\n"@,
        ).flatten(),
    decreases k,
{
    let f = |i: int|
        line_text_of(
            ls[i].text,
            ls[i].line as nat,
            ls[i].start,
            spans,
            selection,
            color,
            width,
        ) + "\n"@;
    let all = Seq::new(k as nat, f);
    if k == 0 {
        assert(all == Seq::<Seq<char>>::empty());
    } else {
        lemma_block_flat(ls, spans, selection, color, width, k - 1);
        let low = Seq::new((k - 1) as nat, f);
        assert(all == low.push(f(k - 1)));
        low.lemma_flatten_push(f(k - 1));
        let shown = line_text_of(
            ls[k - 1].text,
            ls[k - 1].line as nat,
            ls[k - 1].start,
            spans,
            selection,
            color,
            width,
        );
        let before = block_text(ls, spans, selection, color, width, k - 1);
        assert(before + shown + "\n"@ == before + (shown + "\n"@));
    }
}

/// A character is drawn in the color and weight of the last span that holds
/// its first byte, or plainly when none does, and as selected exactly when the
/// selection holds that byte.
pub proof fn law_characters_have_the_style_of_their_byte(
    line: Seq<char>,
    base: int,
    spans: Seq<HighlightSpan>,
    selection: Range<usize>,
    k: int,
)
    requires
        0 <= k < line.len(),
    ensures
        ({
            let at = base + text::byte_len(line.take(k));
            let style = char_style(line, base, spans, selection, k);
            &&& style.selected <==> selection.start <= at < selection.end
            &&& (forall|i: int|
                0 <= i < spans.len() ==> !((#[trigger] spans[i]).range.start <= at
                    < spans[i].range.end)) ==> style.fg is None && !style.bold
            &&& forall|i: int|
                0 <= i < spans.len() && (#[trigger] spans[i]).range.start <= at < spans[i].range.end
                    && (forall|j: int|
                    i < j < spans.len() ==> !((#[trigger] spans[j]).range.start <= at
                        < spans[j].range.end)) ==> style.fg == spans[i].fg && style.bold
                    == spans[i].bold
        }),
{
    let at = base + text::byte_len(line.take(k));
    lemma_span_at(spans, at, spans.len() as int);
}

/// The header of a finding names its path, line and category, and colors
/// change nothing but how it looks.
pub proof fn law_headers_name_the_place(path: Seq<char>, line: nat, category: Seq<char>)
    requires
        no_escape(path),
        no_escape(category),
    ensures
        header_text(path, line, category, false) == path + ":"@ + text::decimal(line) + ": "@
            + category,
        without_escapes(header_text(path, line, category, true)) == header_text(
            path,
            line,
            category,
            false,
        ),
{
    reveal_strlit(":");
    reveal_strlit(": ");
    reveal_strlit(" ");
    let none = Seq::<char>::empty();
    lemma_decimal_no_escape(line);
    lemma_escapes(CATEGORY_FG);
    let digits = text::decimal(line);
    let h = RESET@ + none;
    let g = category + h;
    let f = fg_text(CATEGORY_FG) + g;
    let e = " "@ + f;
    let d = RESET@ + e;
    let c = ":"@ + d;
    let b = digits + c;
    let a = ":"@ + b;
    let z = path + a;
    assert(header_text(path, line, category, true) == BOLD@ + z);
    lemma_escape_goes(BOLD@, z);
    lemma_text_stays(path, a);
    lemma_text_stays(":"@, b);
    lemma_text_stays(digits, c);
    lemma_text_stays(":"@, d);
    lemma_escape_goes(RESET@, e);
    lemma_text_stays(" "@, f);
    lemma_escape_goes(fg_text(CATEGORY_FG), g);
    lemma_text_stays(category, h);
    lemma_escape_goes(RESET@, none);
    assert(header_text(path, line, category, false) == path + (":"@ + (digits + (":"@ + (" "@ + (
    category + none))))));
}

/// A plain context line brings in no ANSI escapes of its own: its output is
/// free of them whenever the source line is.
pub proof fn law_plain_lines_have_no_escapes(
    line: Seq<char>,
    number: nat,
    base: int,
    spans: Seq<HighlightSpan>,
    selection: Range<usize>,
    width: int,
)
    requires
        no_escape(line),
    ensures
        no_escape(line_text_of(line, number, base, spans, selection, false, width)),
{
    reveal_strlit(" > ");
    reveal_strlit("   ");
    reveal_strlit(" │ ");
    let marked = overlaps(base, text::byte_len(line) as int, selection);
    let marker = if marked {
        " > "@
    } else {
        "   "@
    };
    lemma_decimal_no_escape(number);
    lemma_no_escape_concat(spaces(width - text::decimal(number).len()), text::decimal(number));
    lemma_no_escape_concat(marker, padded(number, width));
    lemma_no_escape_concat(marker + padded(number, width), " │ "@);
    lemma_no_escape_concat(gutter_text(marked, number, false, width), line);
}

/// The position of the first `m` at or after `i`, or the end.
pub open spec fn escape_end(s: Seq<char>, i: int) -> int
    decreases s.len() - i,
{
    if i >= s.len() || s[i] == 'm' {
        i
    } else {
        escape_end(s, i + 1)
    }
}

/// A text without its ANSI escapes: everything from an escape character and a
/// `[` to the next `m` goes.
pub open spec fn without_escapes(s: Seq<char>) -> Seq<char>
    decreases s.len(),
    via without_escapes_decreases
{
    if s.len() == 0 {
        Seq::empty()
    } else if s[0] == '\x1b' && s.len() > 1 && s[1] == '[' && escape_end(s, 2) < s.len() {
        without_escapes(s.skip(escape_end(s, 2) + 1))
    } else {
        seq![s[0]] + without_escapes(s.skip(1))
    }
}

#[via_fn]
proof fn without_escapes_decreases(s: Seq<char>) {
    lemma_escape_end_low(s, 2);
}

proof fn lemma_escape_end_low(s: Seq<char>, i: int)
    ensures
        i <= escape_end(s, i),
    decreases s.len() - i,
{
    if i < s.len() && s[i] != 'm' {
        lemma_escape_end_low(s, i + 1);
    }
}

/// Where the first `m` is.
proof fn lemma_escape_end_is(s: Seq<char>, i: int, n: int)
    requires
        0 <= i <= n < s.len(),
        s[n] == 'm',
        forall|k: int| i <= k < n ==> s[k] != 'm',
    ensures
        escape_end(s, i) == n,
    decreases n - i,
{
    if i < n {
        assert(s[i] != 'm');
        lemma_escape_end_is(s, i + 1, n);
    }
}

/// Whether a text is one ANSI escape.
spec fn is_escape(e: Seq<char>) -> bool {
    &&& e.len() >= 3
    &&& e[0] == '\x1b'
    &&& e[1] == '['
    &&& e.last() == 'm'
    &&& forall|k: int| 2 <= k < e.len() - 1 ==> #[trigger] e[k] != 'm'
}

/// An escape at the start goes.
proof fn lemma_escape_goes(e: Seq<char>, rest: Seq<char>)
    requires
        is_escape(e),
    ensures
        without_escapes(e + rest) == without_escapes(rest),
{
    let s = e + rest;
    assert forall|k: int| 2 <= k < e.len() - 1 implies s[k] != 'm' by {
        assert(e[k] != 'm');
    }
    assert(s[e.len() - 1] == e.last());
    lemma_escape_end_is(s, 2, e.len() - 1);
    assert(s.skip(e.len() as int) == rest);
}

/// A text without the escape character stays.
proof fn lemma_text_stays(a: Seq<char>, rest: Seq<char>)
    requires
        no_escape(a),
    ensures
        without_escapes(a + rest) == a + without_escapes(rest),
    decreases a.len(),
{
    if a.len() == 0 {
        assert(a + rest == rest);
        assert(a + without_escapes(rest) == without_escapes(rest));
    } else {
        let s = a + rest;
        assert(s[0] == a[0]);
        assert(a[0] != '\x1b');
        assert(s.skip(1) == a.skip(1) + rest);
        assert forall|i: int| 0 <= i < a.skip(1).len() implies #[trigger] a.skip(1)[i] != '\x1b' by {
            assert(a[i + 1] != '\x1b');
        }
        lemma_text_stays(a.skip(1), rest);
        assert(seq![a[0]] + (a.skip(1) + without_escapes(rest)) == a + without_escapes(rest));
    }
}

proof fn lemma_decimal_digits(n: nat)
    ensures
        forall|i: int| 0 <= i < text::decimal(n).len() ==> #[trigger] text::decimal(n)[i] != 'm',
    decreases n,
{
    assert forall|d: nat| d < 10 implies #[trigger] text::digit_char(d) != 'm' by {}
    if n >= 10 {
        lemma_decimal_digits(n / 10);
        assert(text::digit_char(n % 10) != 'm');
        let s = text::decimal(n);
        assert forall|i: int| 0 <= i < s.len() implies #[trigger] s[i] != 'm' by {
            if i < s.len() - 1 {
                assert(text::decimal(n / 10)[i] != 'm');
            }
        }
    } else {
        assert(text::digit_char(n) != 'm');
    }
}

/// A color between the opening of an escape and an `m` makes an escape.
proof fn lemma_color_escape(open: Seq<char>, c: (u8, u8, u8))
    requires
        open.len() >= 2,
        open[0] == '\x1b',
        open[1] == '[',
        forall|k: int| 2 <= k < open.len() ==> #[trigger] open[k] != 'm',
    ensures
        is_escape(open + rgb_text(c) + "m"@),
{
    reveal_strlit(";");
    reveal_strlit("m");
    lemma_decimal_digits(c.0 as nat);
    lemma_decimal_digits(c.1 as nat);
    lemma_decimal_digits(c.2 as nat);
    let a = text::decimal(c.0 as nat);
    let b = text::decimal(c.1 as nat);
    let d = text::decimal(c.2 as nat);
    let rgb = rgb_text(c);
    assert forall|k: int| 0 <= k < rgb.len() implies #[trigger] rgb[k] != 'm' by {
        if k < a.len() {
            assert(rgb[k] == a[k]);
        } else if a.len() < k < a.len() + 1 + b.len() {
            assert(rgb[k] == b[k - a.len() - 1]);
        } else if k > a.len() + 1 + b.len() {
            assert(rgb[k] == d[k - a.len() - b.len() - 2]);
        }
    }
    let e = open + rgb + "m"@;
    assert forall|k: int| 2 <= k < e.len() - 1 implies #[trigger] e[k] != 'm' by {
        if k < open.len() {
            assert(open[k] != 'm');
        } else {
            assert(rgb[k - open.len()] != 'm');
        }
    }
}

/// The escapes of the renderer.
proof fn lemma_escapes(c: (u8, u8, u8))
    ensures
        is_escape(RESET@),
        is_escape(BOLD@),
        is_escape(fg_text(c)),
        is_escape(bg_text(c)),
{
    reveal_strlit("\x1b[0m");
    reveal_strlit("\x1b[1m");
    reveal_strlit("\x1b[38;2;");
    reveal_strlit("\x1b[48;2;");
    lemma_color_escape("\x1b[38;2;"@, c);
    lemma_color_escape("\x1b[48;2;"@, c);
}

/// The escapes that switch to a style go.
proof fn lemma_style_goes(style: CharStyle, rest: Seq<char>)
    ensures
        without_escapes(style_text(style) + rest) == without_escapes(rest),
{
    let none = Seq::<char>::empty();
    let a = if style.selected {
        bg_text(SELECTION_BG)
    } else {
        none
    };
    let b = match style.fg {
        Some(c) => fg_text(c),
        None => none,
    };
    let d = if style.bold {
        BOLD@
    } else {
        none
    };
    lemma_escapes(SELECTION_BG);
    if let Some(c) = style.fg {
        lemma_escapes(c);
    }
    assert(style_text(style) + rest == RESET@ + (a + (b + (d + rest))));
    lemma_escape_goes(RESET@, a + (b + (d + rest)));
    lemma_optional_goes(a, b + (d + rest));
    lemma_optional_goes(b, d + rest);
    lemma_optional_goes(d, rest);
}

/// An escape at the start, or nothing, goes.
proof fn lemma_optional_goes(e: Seq<char>, rest: Seq<char>)
    requires
        e.len() == 0 || is_escape(e),
    ensures
        without_escapes(e + rest) == without_escapes(rest),
{
    if e.len() == 0 {
        assert(e + rest == rest);
    } else {
        lemma_escape_goes(e, rest);
    }
}

/// Of a styled line its text is left.
proof fn lemma_styled_goes(
    line: Seq<char>,
    base: int,
    spans: Seq<HighlightSpan>,
    selection: Range<usize>,
    k: int,
    rest: Seq<char>,
)
    requires
        no_escape(line),
        0 <= k <= line.len(),
    ensures
        without_escapes(styled(line, base, spans, selection, k) + rest) == line.take(k)
            + without_escapes(rest),
    decreases k,
{
    let all = styled(line, base, spans, selection, k);
    if k == 0 {
        assert(all + rest == rest);
        assert(line.take(0) + without_escapes(rest) == without_escapes(rest));
    } else {
        let style = char_style(line, base, spans, selection, k - 1);
        let fresh = k == 1 || style != char_style(line, base, spans, selection, k - 2);
        let switch = if fresh {
            style_text(style)
        } else {
            Seq::empty()
        };
        let one = seq![line[k - 1]];
        assert(all + rest == styled(line, base, spans, selection, k - 1) + (switch + (one + rest)));
        lemma_styled_goes(line, base, spans, selection, k - 1, switch + (one + rest));
        if fresh {
            lemma_style_goes(style, one + rest);
        } else {
            assert(switch + (one + rest) == one + rest);
        }
        assert(line[k - 1] != '\x1b');
        lemma_text_stays(one, rest);
        assert(line.take(k - 1) + (one + without_escapes(rest)) == line.take(k)
            + without_escapes(rest));
    }
}

/// Color adds styling only, never text: a colored context line without its
/// escapes is the plain line, and it ends with the reset, for every source
/// line that holds no escape character.
pub proof fn law_color_adds_styling_only(
    line: Seq<char>,
    number: nat,
    base: int,
    spans: Seq<HighlightSpan>,
    selection: Range<usize>,
    width: int,
)
    requires
        no_escape(line),
    ensures
        ({
            let plain = line_text_of(line, number, base, spans, selection, false, width);
            let colored = line_text_of(line, number, base, spans, selection, true, width);
            &&& without_escapes(colored) == plain
            &&& colored.len() >= RESET@.len()
            &&& colored.skip(colored.len() - RESET@.len()) == RESET@
        }),
{
    reveal_strlit(" > ");
    reveal_strlit("   ");
    reveal_strlit(" │ ");
    let plain = line_text_of(line, number, base, spans, selection, false, width);
    let colored = line_text_of(line, number, base, spans, selection, true, width);
    let marker = if overlaps(base, text::byte_len(line) as int, selection) {
        " > "@
    } else {
        "   "@
    };
    let digits = padded(number, width);
    let bar = " │ "@;
    let body = styled(line, base, spans, selection, line.len() as int);
    let none = Seq::<char>::empty();
    lemma_decimal_no_escape(number);
    lemma_no_escape_concat(spaces(width - text::decimal(number).len()), text::decimal(number));
    lemma_escapes(GUTTER_FG);
    let e = body + RESET@;
    let d = bar + e;
    let c = RESET@ + d;
    let b = digits + c;
    let a = fg_text(GUTTER_FG) + b;
    assert(colored == marker + a);
    lemma_text_stays(marker, a);
    lemma_escape_goes(fg_text(GUTTER_FG), b);
    lemma_text_stays(digits, c);
    lemma_escape_goes(RESET@, d);
    lemma_text_stays(bar, e);
    lemma_styled_goes(line, base, spans, selection, line.len() as int, RESET@);
    assert(RESET@ + none == RESET@);
    lemma_escape_goes(RESET@, none);
    assert(line.take(line.len() as int) + none == line);
    assert(plain == marker + (digits + (bar + line)));
    assert(colored.skip(colored.len() - RESET@.len()) == RESET@);
}

} // verus!
