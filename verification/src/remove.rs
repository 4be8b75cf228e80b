//! Comment removal from source files.
//!
//! The scanner produces byte ranges; [`remove_selection`] turns a range into
//! edited source text, applying whitespace cleanup:
//!
//! - a comment that occupied a whole line removes that line (and one
//!   directly following blank line, so `// TODO` + blank does not leave a
//!   hole),
//! - inline comments are cut out and the surrounding whitespace is joined
//!   (`let x = 1; // TODO` becomes `let x = 1;`),
//! - line endings (`\n` vs `\r\n`) and the final newline are preserved.
//!
//! [`apply_removal`] additionally guards against clobbering edits made
//! since the scan: the file content must still match the snapshot recorded
//! when the finding was produced. [`apply_removals`] does the same for the
//! comments of a run: it works on the set of their ranges, so what stands
//! between two comments stays.

use crate::text;
use crate::text::LineBuf;
use sha2::{Digest, Sha256};
use std::ops::Range;
use vstd::prelude::*;
use vstd::string::*;

verus! {

// ---------------------------------------------------------------------------
// What a removal does to a text
// ---------------------------------------------------------------------------

/// The number of the line that holds character `i`, counting from line `k`;
/// the last line holds every position past the end.
pub open spec fn line_at(ls: Seq<text::TextLine>, i: int, k: int) -> int
    decreases ls.len() - k,
{
    if k < 0 || k + 1 >= ls.len() || i < text::line_start(ls, k + 1) {
        k
    } else {
        line_at(ls, i, k + 1)
    }
}

/// Whether `c` opens a bracketed list or separates its items.
pub open spec fn is_opening(c: char) -> bool {
    c == '(' || c == '[' || c == '{' || c == ','
}

/// Whether `c` closes a bracketed list, separates items or ends a statement.
pub open spec fn is_closing(c: char) -> bool {
    c == ')' || c == ']' || c == '}' || c == ',' || c == ';'
}

/// The text left on a line from which the middle was cut: the fragments meet
/// at one space, or directly when one is blank or the cut sits inside
/// brackets.
pub open spec fn joined(before: Seq<char>, after: Seq<char>) -> Seq<char> {
    let b = text::trim_right(before);
    let a = text::trim_left(after);
    if b.len() == 0 {
        a
    } else if a.len() == 0 {
        b
    } else if is_opening(b.last()) && is_closing(a[0]) {
        b + a
    } else {
        b + seq![' '] + a
    }
}

/// Whether the last line touched by a removal goes away: what is left of it
/// is blank.
pub open spec fn tail_goes(first: int, last: int, before: Seq<char>, after: Seq<char>) -> bool {
    if first == last {
        text::is_blank(before + after)
    } else {
        text::is_blank(after)
    }
}

/// The lines that remain of lines `first..=last` when only `before` is kept
/// of the first and `after` of the last.
pub open spec fn residue(
    ls: Seq<text::TextLine>,
    first: int,
    last: int,
    before: Seq<char>,
    after: Seq<char>,
) -> Seq<text::TextLine> {
    if first == last {
        if text::is_blank(before + after) {
            Seq::empty()
        } else {
            seq![
                text::TextLine {
                    text: text::trim_right(joined(before, after)),
                    eol: ls[first].eol,
                },
            ]
        }
    } else {
        (if text::is_blank(before) {
            Seq::empty()
        } else {
            seq![text::TextLine { text: text::trim_right(before), eol: ls[first].eol }]
        }) + (if text::is_blank(after) {
            Seq::empty()
        } else {
            seq![text::TextLine { text: after, eol: ls[last].eol }]
        })
    }
}

/// The first line that a removal leaves alone after its last line: when that
/// line goes away, a blank line directly after it goes with it.
pub open spec fn resume(
    ls: Seq<text::TextLine>,
    first: int,
    last: int,
    before: Seq<char>,
    after: Seq<char>,
) -> int {
    if tail_goes(first, last, before, after) && last + 1 < ls.len() && text::is_blank(
        ls[last + 1].text,
    ) {
        last + 2
    } else {
        last + 1
    }
}

/// The first line touched by a removal of the characters `a..b`.
pub open spec fn cut_first(src: Seq<char>, a: int) -> int {
    line_at(text::lines_of(src), a, 0)
}

/// The last line touched by a removal of the characters `a..b`.
pub open spec fn cut_last(src: Seq<char>, b: int) -> int {
    line_at(text::lines_of(src), b - 1, 0)
}

/// What a removal that starts at character `a` keeps of its first line.
pub open spec fn cut_before(src: Seq<char>, a: int) -> Seq<char> {
    src.subrange(text::line_start(text::lines_of(src), cut_first(src, a)), a)
}

/// The end of the last line touched by a removal that ends at character `b`,
/// without its terminator.
pub open spec fn cut_end(src: Seq<char>, b: int) -> int {
    text::line_start(text::lines_of(src), cut_last(src, b)) + text::lines_of(src)[cut_last(
        src,
        b,
    )].text.len()
}

/// What a removal that ends at character `b` keeps of its last line: nothing
/// when it ends in the terminator.
pub open spec fn cut_after(src: Seq<char>, b: int) -> Seq<char> {
    if b <= cut_end(src, b) {
        src.subrange(b, cut_end(src, b))
    } else {
        Seq::empty()
    }
}

/// Whether `a..b` is a range of characters of `src`.
pub open spec fn removable(src: Seq<char>, a: int, b: int) -> bool {
    0 <= a <= b <= src.len()
}

/// The lines of `src` after the characters `a..b` were removed.
pub open spec fn removed_lines(src: Seq<char>, a: int, b: int) -> Seq<text::TextLine> {
    let ls = text::lines_of(src);
    let first = cut_first(src, a);
    let last = cut_last(src, b);
    let before = cut_before(src, a);
    let after = cut_after(src, b);
    ls.take(first) + residue(ls, first, last, before, after) + ls.skip(
        resume(ls, first, last, before, after),
    )
}

/// `src` after the characters `a..b` were removed.
pub open spec fn removed_text(src: Seq<char>, a: int, b: int) -> Seq<char> {
    if a == b {
        src
    } else {
        text::join_lines(removed_lines(src, a, b))
    }
}

/// Whether a byte range of `src` can be removed: it is empty, or it lies on
/// character boundaries.
pub open spec fn removable_bytes(src: Seq<char>, start: int, end: int) -> bool {
    if start == end {
        0 <= end <= text::byte_len(src)
    } else {
        start <= end && text::is_boundary(src, start) && text::is_boundary(src, end)
    }
}

/// `src` after a byte range was removed.
pub open spec fn removed_bytes(src: Seq<char>, start: int, end: int) -> Seq<char> {
    if start == end {
        src
    } else {
        removed_text(src, text::char_pos(src, start), text::char_pos(src, end))
    }
}

/// Where [`line_at`] finds the line of a position.
pub proof fn lemma_line_at(ls: Seq<text::TextLine>, i: int, k: int)
    requires
        0 <= k < ls.len(),
        text::line_start(ls, k) <= i,
    ensures
        k <= line_at(ls, i, k) < ls.len(),
        text::line_start(ls, line_at(ls, i, k)) <= i,
        i < text::join_lines(ls).len() ==> i < text::line_start(ls, line_at(ls, i, k) + 1),
        forall|j: int|
            k < j <= line_at(ls, i, k) ==> #[trigger] text::line_start(ls, j) <= i,
    decreases ls.len() - k,
{
    if k + 1 >= ls.len() || i < text::line_start(ls, k + 1) {
        assert(ls.take(ls.len() as int) == ls);
    } else {
        lemma_line_at(ls, i, k + 1);
    }
}

/// A later position is never on an earlier line.
pub proof fn lemma_line_at_mono(ls: Seq<text::TextLine>, i: int, j: int, k: int)
    requires
        0 <= k < ls.len(),
        i <= j,
    ensures
        line_at(ls, i, k) <= line_at(ls, j, k),
    decreases ls.len() - k,
{
    if k + 1 >= ls.len() || i < text::line_start(ls, k + 1) {
        lemma_line_at_low(ls, j, k);
    } else {
        lemma_line_at_mono(ls, i, j, k + 1);
    }
}

/// [`line_at`] never goes below the line it starts from.
proof fn lemma_line_at_low(ls: Seq<text::TextLine>, i: int, k: int)
    requires
        0 <= k,
    ensures
        line_at(ls, i, k) >= k,
    decreases ls.len() - k,
{
    if !(k + 1 >= ls.len() || i < text::line_start(ls, k + 1)) {
        lemma_line_at_low(ls, i, k + 1);
    }
}

/// The shape of the cut that a removal makes.
pub proof fn lemma_cut(src: Seq<char>, a: int, b: int)
    requires
        0 <= a < b <= src.len(),
    ensures
        0 <= cut_first(src, a) <= cut_last(src, b) < text::lines_of(src).len(),
        0 <= text::line_start(text::lines_of(src), cut_first(src, a)) <= a,
        0 <= text::line_start(text::lines_of(src), cut_last(src, b)) < b,
        b <= text::line_start(text::lines_of(src), cut_last(src, b) + 1),
        cut_end(src, b) <= src.len(),
        text::join_lines(text::lines_of(src)) == src,
{
    let ls = text::lines_of(src);
    text::lemma_lines_join(src, 0);
    assert(src.skip(0) == src);
    text::lemma_lines_nonempty(src);
    assert(ls.take(0) == Seq::<text::TextLine>::empty());
    lemma_line_at(ls, a, 0);
    lemma_line_at(ls, b - 1, 0);
    lemma_line_at_mono(ls, a, b - 1, 0);
    text::lemma_line_extent(ls, cut_last(src, b));
}

// ---------------------------------------------------------------------------
// Laws
// ---------------------------------------------------------------------------

/// The characters of a text that are not whitespace.
pub open spec fn ink(s: Seq<char>) -> Seq<char>
    decreases s.len(),
{
    if s.len() == 0 {
        Seq::empty()
    } else if text::is_white(s.last()) {
        ink(s.drop_last())
    } else {
        ink(s.drop_last()).push(s.last())
    }
}

proof fn lemma_ink_concat(a: Seq<char>, b: Seq<char>)
    ensures
        ink(a + b) == ink(a) + ink(b),
    decreases b.len(),
{
    if b.len() == 0 {
        assert(a + b == a);
        assert(ink(a) + ink(b) == ink(a));
    } else {
        assert((a + b).drop_last() == a + b.drop_last());
        lemma_ink_concat(a, b.drop_last());
        assert(ink(a + b) == ink(a) + ink(b));
    }
}

proof fn lemma_ink_blank(s: Seq<char>)
    requires
        text::is_blank(s),
    ensures
        ink(s) == Seq::<char>::empty(),
    decreases s.len(),
{
    if s.len() > 0 {
        assert(text::is_white(s[s.len() - 1]));
        assert forall|k: int| 0 <= k < s.drop_last().len() implies text::is_white(
            #[trigger] s.drop_last()[k],
        ) by {
            assert(text::is_white(s[k]));
        }
        lemma_ink_blank(s.drop_last());
    }
}

proof fn lemma_ink_trim_right(s: Seq<char>)
    ensures
        ink(text::trim_right(s)) == ink(s),
    decreases s.len(),
{
    if s.len() > 0 && text::is_white(s.last()) {
        lemma_ink_trim_right(s.drop_last());
    }
}

proof fn lemma_ink_trim_left(s: Seq<char>)
    ensures
        ink(text::trim_left(s)) == ink(s),
    decreases s.len(),
{
    if s.len() > 0 && text::is_white(s[0]) {
        lemma_ink_trim_left(s.drop_first());
        assert(seq![s[0]] + s.drop_first() == s);
        lemma_ink_concat(seq![s[0]], s.drop_first());
        lemma_ink_blank(seq![s[0]]);
        assert(ink(seq![s[0]]) + ink(s.drop_first()) == ink(s.drop_first()));
    }
}

proof fn lemma_ink_joined(before: Seq<char>, after: Seq<char>)
    ensures
        ink(text::trim_right(joined(before, after))) == ink(before) + ink(after),
{
    let b = text::trim_right(before);
    let a = text::trim_left(after);
    lemma_ink_trim_right(joined(before, after));
    lemma_ink_trim_right(before);
    lemma_ink_trim_left(after);
    lemma_ink_concat(b, a);
    lemma_ink_concat(b, seq![' ']);
    lemma_ink_concat(b + seq![' '], a);
    lemma_ink_blank(seq![' ']);
    assert(ink(b) + Seq::<char>::empty() == ink(b));
    if b.len() == 0 {
        assert(ink(b) + ink(a) == ink(a));
    } else if a.len() == 0 {
        assert(ink(b) + ink(a) == ink(b));
    }
}

proof fn lemma_ink_line(l: text::TextLine)
    requires
        text::is_blank(l.eol),
    ensures
        ink(text::join_lines(seq![l])) == ink(l.text),
{
    text::lemma_join_one(l);
    lemma_ink_concat(l.text, l.eol);
    lemma_ink_blank(l.eol);
    assert(ink(l.text) + Seq::<char>::empty() == ink(l.text));
}

proof fn lemma_ink_residue(
    ls: Seq<text::TextLine>,
    first: int,
    last: int,
    before: Seq<char>,
    after: Seq<char>,
)
    requires
        0 <= first <= last < ls.len(),
        text::is_blank(ls[first].eol),
        text::is_blank(ls[last].eol),
    ensures
        ink(text::join_lines(residue(ls, first, last, before, after))) == ink(before) + ink(after),
{
    let none = Seq::<text::TextLine>::empty();
    assert(ink(text::join_lines(none)) == Seq::<char>::empty());
    lemma_ink_concat(before, after);
    if first == last {
        if text::is_blank(before + after) {
            lemma_ink_blank(before + after);
        } else {
            lemma_ink_joined(before, after);
            lemma_ink_line(
                text::TextLine {
                    text: text::trim_right(joined(before, after)),
                    eol: ls[first].eol,
                },
            );
        }
    } else {
        let head = if text::is_blank(before) {
            none
        } else {
            seq![text::TextLine { text: text::trim_right(before), eol: ls[first].eol }]
        };
        let tail = if text::is_blank(after) {
            none
        } else {
            seq![text::TextLine { text: after, eol: ls[last].eol }]
        };
        text::lemma_join_concat(head, tail);
        lemma_ink_concat(text::join_lines(head), text::join_lines(tail));
        if text::is_blank(before) {
            lemma_ink_blank(before);
        } else {
            lemma_ink_trim_right(before);
            lemma_ink_line(text::TextLine { text: text::trim_right(before), eol: ls[first].eol });
        }
        if text::is_blank(after) {
            lemma_ink_blank(after);
        } else {
            lemma_ink_line(text::TextLine { text: after, eol: ls[last].eol });
        }
    }
}

/// What stands before a cut is the lines before its first one and what it
/// keeps of that.
proof fn lemma_ink_before(src: Seq<char>, a: int, b: int)
    requires
        0 <= a < b <= src.len(),
    ensures
        ink(src.take(a)) == ink(text::join_lines(text::lines_of(src).take(cut_first(src, a))))
            + ink(cut_before(src, a)),
{
    lemma_cut(src, a, b);
    let ls = text::lines_of(src);
    let first = cut_first(src, a);
    text::lemma_line_extent(ls, first);
    let head = text::join_lines(ls.take(first));
    assert(src.take(a) == head + cut_before(src, a));
    lemma_ink_concat(head, cut_before(src, a));
}

/// What stands after a cut is what it keeps of its last line and the lines
/// after that, terminators aside.
proof fn lemma_ink_after(src: Seq<char>, a: int, b: int)
    requires
        0 <= a < b <= src.len(),
    ensures
        ink(src.skip(b)) == ink(cut_after(src, b)) + ink(
            text::join_lines(text::lines_of(src).skip(cut_last(src, b) + 1)),
        ),
{
    lemma_cut(src, a, b);
    let ls = text::lines_of(src);
    let last = cut_last(src, b);
    let after = cut_after(src, b);
    text::lemma_lines_eol(src, 0);
    text::lemma_line_extent(ls, last);
    text::lemma_line_start_step(ls, last);
    let over = if b <= cut_end(src, b) {
        0
    } else {
        b - cut_end(src, b)
    };
    let eol = ls[last].eol.skip(over);
    let below = text::join_lines(ls.skip(last + 1));
    assert(src.skip(b) == after + eol + below);
    lemma_ink_concat(after + eol, below);
    lemma_ink_concat(after, eol);
    assert(text::is_blank(ls[last].eol));
    assert forall|k: int| 0 <= k < eol.len() implies text::is_white(#[trigger] eol[k]) by {
        assert(text::is_white(ls[last].eol[over + k]));
    }
    lemma_ink_blank(eol);
    assert(ink(after) + Seq::<char>::empty() == ink(after));
}

/// The lines that a cut leaves alone after its last line hold all that the
/// lines after it do.
proof fn lemma_ink_resume(
    ls: Seq<text::TextLine>,
    first: int,
    last: int,
    before: Seq<char>,
    after: Seq<char>,
)
    requires
        0 <= last < ls.len(),
        forall|k: int| 0 <= k < ls.len() ==> text::is_blank(#[trigger] ls[k].eol),
    ensures
        ink(text::join_lines(ls.skip(resume(ls, first, last, before, after)))) == ink(
            text::join_lines(ls.skip(last + 1)),
        ),
{
    if resume(ls, first, last, before, after) == last + 2 {
        let gone = ls[last + 1];
        let below = ls.skip(last + 2);
        assert(ls.skip(last + 1) == seq![gone] + below);
        text::lemma_join_concat(seq![gone], below);
        lemma_ink_line(gone);
        lemma_ink_blank(gone.text);
        lemma_ink_concat(text::join_lines(seq![gone]), text::join_lines(below));
        assert(Seq::<char>::empty() + ink(text::join_lines(below)) == ink(
            text::join_lines(below),
        ));
    }
}

/// A removal takes away exactly the characters of its selection, whitespace
/// aside: what remains of the source before and after the selection keeps
/// every other character, in order.
pub proof fn law_removal_keeps_the_rest(src: Seq<char>, a: int, b: int)
    requires
        removable(src, a, b),
    ensures
        ink(removed_text(src, a, b)) == ink(src.take(a)) + ink(src.skip(b)),
{
    if a == b {
        assert(src.take(a) + src.skip(b) == src);
        lemma_ink_concat(src.take(a), src.skip(b));
    } else {
        lemma_cut(src, a, b);
        let ls = text::lines_of(src);
        let first = cut_first(src, a);
        let last = cut_last(src, b);
        let before = cut_before(src, a);
        let after = cut_after(src, b);
        let mid = residue(ls, first, last, before, after);
        let next = resume(ls, first, last, before, after);
        text::lemma_lines_eol(src, 0);
        lemma_ink_residue(ls, first, last, before, after);
        lemma_ink_before(src, a, b);
        lemma_ink_after(src, a, b);
        lemma_ink_resume(ls, first, last, before, after);
        let head = text::join_lines(ls.take(first));
        let tail = text::join_lines(ls.skip(next));
        text::lemma_join_concat(ls.take(first), mid);
        text::lemma_join_concat(ls.take(first) + mid, ls.skip(next));
        lemma_ink_concat(head, text::join_lines(mid));
        lemma_ink_concat(head + text::join_lines(mid), tail);
        assert(ink(head) + (ink(before) + ink(after)) + ink(tail) == ink(head) + ink(before) + (
        ink(after) + ink(tail)));
    }
}

/// A removal leaves every line before its first and after its last line as it
/// is, terminators included; the only other line that may go is one blank
/// line directly after a removed line.
pub proof fn law_removal_is_local(src: Seq<char>, a: int, b: int)
    requires
        removable(src, a, b),
        a < b,
    ensures
        ({
            let ls = text::lines_of(src);
            let first = cut_first(src, a);
            let last = cut_last(src, b);
            let next = resume(ls, first, last, cut_before(src, a), cut_after(src, b));
            let out = removed_lines(src, a, b);
            &&& out.take(first) == ls.take(first)
            &&& next <= ls.len()
            &&& out.skip(out.len() - (ls.len() - next)) == ls.skip(next)
            &&& next == last + 1 || (next == last + 2 && text::is_blank(ls[last + 1].text))
            &&& out.len() <= ls.len()
        }),
{
    lemma_cut(src, a, b);
    let ls = text::lines_of(src);
    let first = cut_first(src, a);
    let last = cut_last(src, b);
    let before = cut_before(src, a);
    let after = cut_after(src, b);
    let mid = residue(ls, first, last, before, after);
    let next = resume(ls, first, last, before, after);
    let out = removed_lines(src, a, b);
    assert(out.take(first) == ls.take(first));
    assert(out.skip((first + mid.len()) as int) == ls.skip(next));
}

/// Trimming on the right keeps everything up to any visible character.
proof fn lemma_trim_right_keeps(s: Seq<char>, i: int)
    requires
        0 <= i < s.len(),
        !text::is_white(s[i]),
    ensures
        i < text::trim_right(s).len() <= s.len(),
        text::trim_right(s) == s.take(text::trim_right(s).len() as int),
    decreases s.len(),
{
    if text::is_white(s.last()) {
        lemma_trim_right_keeps(s.drop_last(), i);
        let n = text::trim_right(s).len() as int;
        assert(s.drop_last().take(n) == s.take(n));
    } else {
        assert(s.take(s.len() as int) == s);
    }
}

/// Joined fragments start with the first one, up to any visible character.
proof fn lemma_joined_head(before: Seq<char>, after: Seq<char>, i: int)
    requires
        0 <= i < before.len(),
        !text::is_white(before[i]),
    ensures
        i < text::trim_right(joined(before, after)).len(),
        text::trim_right(joined(before, after)).take(i + 1) == before.take(i + 1),
{
    lemma_trim_right_keeps(before, i);
    let kept = text::trim_right(before);
    let met = joined(before, after);
    assert(met.len() >= kept.len() && met.take(kept.len() as int) == kept);
    assert(met[i] == met.take(kept.len() as int)[i]);
    lemma_trim_right_keeps(met, i);
    let out = text::trim_right(met);
    assert(out.take(i + 1) == met.take(i + 1));
    assert(met.take(i + 1) == met.take(kept.len() as int).take(i + 1));
    assert(kept.take(i + 1) == before.take(i + 1));
}

/// What remains of the touched lines starts with what is kept of the first
/// one, up to any visible character.
proof fn lemma_residue_head(
    ls: Seq<text::TextLine>,
    first: int,
    last: int,
    before: Seq<char>,
    after: Seq<char>,
    i: int,
)
    requires
        0 <= i < before.len(),
        !text::is_white(before[i]),
    ensures
        i < text::join_lines(residue(ls, first, last, before, after)).len(),
        text::join_lines(residue(ls, first, last, before, after)).take(i + 1) == before.take(i + 1),
{
    let mid = residue(ls, first, last, before, after);
    if first == last {
        assert((before + after)[i] == before[i]);
        lemma_joined_head(before, after, i);
    } else {
        lemma_trim_right_keeps(before, i);
        assert(text::trim_right(before).take(i + 1) == before.take(i + 1));
    }
    let line = mid[0];
    assert(line.text.take(i + 1) == before.take(i + 1));
    assert(mid == seq![line] + mid.skip(1));
    text::lemma_join_concat(seq![line], mid.skip(1));
    text::lemma_join_one(line);
    assert(text::join_lines(mid).take(i + 1) == line.text.take(i + 1));
}

/// Two texts that start with `head` and agree on what follows it.
proof fn lemma_same_start(
    head: Seq<char>,
    x: Seq<char>,
    y: Seq<char>,
    z: Seq<char>,
    e: int,
)
    requires
        0 <= e <= head.len() || (head.len() < e && e - head.len() <= x.len() && e - head.len()
            <= y.len() && x.take(e - head.len()) == y.take(e - head.len())),
    ensures
        e <= (head + x + z).len(),
        (head + x + z).take(e) == (head + y).take(e),
{
    if e <= head.len() {
        assert((head + x + z).take(e) == head.take(e));
        assert((head + y).take(e) == head.take(e));
    } else {
        assert((head + x + z).take(e) == head + x.take(e - head.len()));
        assert((head + y).take(e) == head + y.take(e - head.len()));
    }
}

/// The start of the line that position `p` is on.
pub open spec fn line_begin(s: Seq<char>, p: int) -> int
    decreases p,
{
    if p <= 0 || s[p - 1] == '\n' {
        p
    } else {
        line_begin(s, p - 1)
    }
}

/// A line starts behind the line feed before it.
proof fn lemma_line_begin_is(s: Seq<char>, p: int, n: int)
    requires
        0 <= n <= p,
        n == 0 || s[n - 1] == '\n',
        forall|k: int| n <= k < p ==> s[k] != '\n',
    ensures
        line_begin(s, p) == n,
    decreases p,
{
    if n < p {
        assert(s[p - 1] != '\n');
        lemma_line_begin_is(s, p - 1, n);
    }
}

/// A later position is on no earlier line.
proof fn lemma_line_begin_mono(s: Seq<char>, p: int, q: int)
    requires
        0 <= p <= q,
    ensures
        0 <= line_begin(s, p) <= line_begin(s, q),
        line_begin(s, p) <= p,
    decreases q,
{
    if p < q {
        lemma_line_begin_mono(s, p, q - 1);
    } else if p > 0 {
        lemma_line_begin_mono(s, p - 1, p - 1);
    }
}

/// Where a line starts shows in what stands before it.
proof fn lemma_line_begin_prefix(s: Seq<char>, t: Seq<char>, p: int, n: int)
    requires
        0 <= p <= n <= s.len(),
        n <= t.len(),
        s.take(n) == t.take(n),
    ensures
        line_begin(s, p) == line_begin(t, p),
    decreases p,
{
    if p > 0 {
        assert(s[p - 1] == s.take(n)[p - 1] && t[p - 1] == t.take(n)[p - 1]);
        lemma_line_begin_prefix(s, t, p - 1, n);
    }
}

/// The first line of a removal starts where the line of its first character
/// does.
proof fn lemma_cut_begin(src: Seq<char>, a: int, b: int)
    requires
        0 <= a < b <= src.len(),
    ensures
        line_begin(src, a) == text::line_start(text::lines_of(src), cut_first(src, a)),
{
    lemma_cut(src, a, b);
    let ls = text::lines_of(src);
    let k = cut_first(src, a);
    assert(ls.take(0) == Seq::<text::TextLine>::empty());
    lemma_line_at(ls, a, 0);
    text::lemma_lines_newlines(src, 0, k);
    assert(k == 0 ==> text::line_start(ls, k) == 0);
    lemma_line_begin_is(src, a, text::line_start(ls, k));
}

/// What stands before a selection stays where it is: everything before the
/// selection's first line, and on that line everything up to any visible
/// character. So the ranges of a file can be removed one by one, the last one
/// first.
pub proof fn law_removal_keeps_what_precedes(src: Seq<char>, a: int, b: int, e: int)
    requires
        removable(src, a, b),
        0 <= e <= a,
        e <= line_begin(src, a) || !text::is_white(src[e - 1]),
    ensures
        e <= removed_text(src, a, b).len(),
        removed_text(src, a, b).take(e) == src.take(e),
{
    if a < b {
        lemma_cut(src, a, b);
        lemma_cut_begin(src, a, b);
        let ls = text::lines_of(src);
        let first = cut_first(src, a);
        let before = cut_before(src, a);
        let after = cut_after(src, b);
        let mid = residue(ls, first, cut_last(src, b), before, after);
        let rest = ls.skip(resume(ls, first, cut_last(src, b), before, after));
        let head = text::join_lines(ls.take(first));
        text::lemma_line_extent(ls, first);
        assert(head.len() == text::line_start(ls, first));
        assert(src.take(a) == head + before);
        assert(src.take(a).take(e) == src.take(e));
        text::lemma_join_concat(ls.take(first), mid);
        text::lemma_join_concat(ls.take(first) + mid, rest);
        if e > head.len() {
            let i = e - 1 - head.len();
            assert(before[i] == src.take(a)[e - 1]);
            lemma_residue_head(ls, first, cut_last(src, b), before, after, i);
        }
        lemma_same_start(head, text::join_lines(mid), before, text::join_lines(rest), e);
    }
}

/// The line of a position is the one that holds it.
proof fn lemma_line_at_is(ls: Seq<text::TextLine>, x: int, j: int, k: int)
    requires
        0 <= j <= k < ls.len(),
        text::line_start(ls, k) <= x < text::line_start(ls, k + 1),
    ensures
        line_at(ls, x, j) == k,
    decreases k - j,
{
    if j < k {
        text::lemma_line_start_mono(ls, j + 1, k);
        lemma_line_at_is(ls, x, j + 1, k);
    }
}

/// What a removal from the line at `p` to the line at `q` leaves, in terms of
/// the lines of the text.
proof fn lemma_removed(
    src: Seq<char>,
    a: int,
    b: int,
    p: int,
    s: int,
    m: int,
    q: int,
    t: int,
    n: int,
) -> (at: (int, int))
    requires
        text::is_line(src, p, s, m),
        text::is_line(src, q, t, n),
        p <= a < text::past_line(src, m),
        q < b <= text::past_line(src, n),
        a < b,
    ensures
        ({
            let ls = text::lines_of(src);
            let before = src.subrange(p, a);
            let after = if b <= t {
                src.subrange(b, t)
            } else {
                Seq::empty()
            };
            let next = resume(ls, at.0, at.1, before, after);
            &&& 0 <= at.0 <= at.1 < ls.len()
            &&& at.0 == at.1 <==> p == q
            &&& next <= ls.len()
            &&& ls[at.0].eol == src.subrange(s, text::past_line(src, m))
            &&& ls[at.1].eol == src.subrange(t, text::past_line(src, n))
            &&& removed_text(src, a, b) == src.take(p) + text::join_lines(
                residue(ls, at.0, at.1, before, after),
            ) + text::join_lines(ls.skip(next))
            &&& text::join_lines(ls.skip(at.1 + 1)) == src.skip(text::past_line(src, n))
            &&& text::line_start(ls, at.1 + 1) == text::past_line(src, n)
        }),
{
    let ls = text::lines_of(src);
    let x = text::lemma_line_number(src, 0, p, s, m);
    let y = text::lemma_line_number(src, 0, q, t, n);
    lemma_line_at_is(ls, a, 0, x);
    lemma_line_at_is(ls, b - 1, 0, y);
    assert(cut_first(src, a) == x && cut_last(src, b) == y);
    lemma_cut(src, a, b);
    text::lemma_line_extent(ls, x);
    text::lemma_line_extent(ls, y);
    let before = cut_before(src, a);
    let after = cut_after(src, b);
    assert(cut_end(src, b) == t);
    if x < y {
        text::lemma_line_start_mono(ls, x + 1, y);
        text::lemma_line_start_step(ls, x);
    }
    let mid = residue(ls, x, y, before, after);
    let next = resume(ls, x, y, before, after);
    text::lemma_join_concat(ls.take(x), mid);
    text::lemma_join_concat(ls.take(x) + mid, ls.skip(next));
    (x, y)
}

/// Trimming a text whose last visible character is known.
proof fn lemma_trimmed_end(s: Seq<char>, m: int)
    requires
        0 <= m <= s.len(),
        m > 0 ==> !text::is_white(s[m - 1]),
        forall|k: int| m <= k < s.len() ==> text::is_white(#[trigger] s[k]),
    ensures
        text::trim_right(s) == s.take(m),
        m > 0 ==> !text::is_blank(s),
        m == 0 ==> text::is_blank(s),
{
    text::lemma_trim_right(s, m);
}

/// The text left on a line between its last visible character before a cut
/// and the first one after it.
proof fn lemma_joined_is(before: Seq<char>, after: Seq<char>, i: int, j: int, m: int)
    requires
        0 <= i < before.len(),
        !text::is_white(before[i]),
        forall|k: int| i < k < before.len() ==> text::is_white(#[trigger] before[k]),
        0 <= j < m <= after.len(),
        !text::is_white(after[j]),
        !text::is_white(after[m - 1]),
        forall|k: int| 0 <= k < j || m <= k < after.len() ==> text::is_white(#[trigger] after[k]),
    ensures
        text::trim_right(joined(before, after)) == before.take(i + 1) + (if (before[i] == '('
            || before[i] == '[' || before[i] == '{' || before[i] == ',') && (after[j] == ')'
            || after[j] == ']' || after[j] == '}' || after[j] == ',' || after[j] == ';') {
            Seq::empty()
        } else {
            seq![' ']
        }) + after.subrange(j, m),
{
    lemma_trimmed_end(before, i + 1);
    text::lemma_trim_left(after, j);
    let b = before.take(i + 1);
    let a = after.skip(j);
    assert(b.last() == before[i]);
    assert(a[0] == after[j]);
    let met = joined(before, after);
    let gap = met.len() - b.len() - a.len();
    let e = b.len() + gap + (m - j);
    assert(met[e - 1] == after[m - 1]);
    assert forall|k: int| e <= k < met.len() implies text::is_white(#[trigger] met[k]) by {
        assert(met[k] == after[j + (k - b.len() - gap)]);
    }
    lemma_trimmed_end(met, e);
    assert(met.take(e) == b + met.subrange(b.len() as int, b.len() + gap) + after.subrange(j, m));
}

/// What is left of a text when what is left of the line of a cut is not blank.
proof fn lemma_removed_line(src: Seq<char>, a: int, b: int, p: int, t: int, n: int, kept: Seq<char>)
    requires
        text::is_line(src, p, t, n),
        p <= a < b <= text::past_line(src, n),
        ({
            let before = src.subrange(p, a);
            let after = if b <= t {
                src.subrange(b, t)
            } else {
                Seq::empty()
            };
            !text::is_blank(before + after) && kept == text::trim_right(joined(before, after))
        }),
    ensures
        removed_text(src, a, b) == src.take(p) + kept + src.skip(t),
{
    let (x, y) = lemma_removed(src, a, b, p, t, n, p, t, n);
    let ls = text::lines_of(src);
    let line = text::TextLine { text: kept, eol: ls[x].eol };
    let rest = src.skip(text::past_line(src, n));
    text::lemma_join_one(line);
    assert(src.skip(t) == line.eol + rest);
    lemma_three(src.take(p), kept, line.eol);
    lemma_three(src.take(p) + kept, line.eol, rest);
}

/// A cut inside a line never joins what stands on both sides of it: the last
/// visible character before the cut and the first one after it stay one space
/// apart, unless the one before is an opening bracket or a comma and the one
/// after a closing bracket, a comma or a semicolon. The rest of the line stays,
/// without whitespace at its end, and so does the rest of the text.
pub proof fn law_cuts_never_merge_words(
    src: Seq<char>,
    a: int,
    b: int,
    p: int,
    t: int,
    n: int,
    i: int,
    j: int,
    m: int,
)
    requires
        text::is_line(src, p, t, n),
        p <= i < a < b <= j < m <= t,
        !text::is_white(src[i]),
        !text::is_white(src[j]),
        !text::is_white(src[m - 1]),
        forall|k: int| i < k < a || b <= k < j || m <= k < t ==> text::is_white(#[trigger] src[k]),
    ensures
        ({
            let tight = (src[i] == '(' || src[i] == '[' || src[i] == '{' || src[i] == ',') && (
            src[j] == ')' || src[j] == ']' || src[j] == '}' || src[j] == ',' || src[j] == ';');
            let gap = if tight {
                Seq::empty()
            } else {
                seq![' ']
            };
            removed_text(src, a, b) == src.take(i + 1) + gap + src.subrange(j, m) + src.skip(t)
        }),
{
    let before = src.subrange(p, a);
    let after = src.subrange(b, t);
    assert forall|k: int| i - p < k < before.len() implies text::is_white(#[trigger] before[k]) by {
        assert(before[k] == src[p + k]);
    }
    assert forall|k: int| 0 <= k < j - b || m - b <= k < after.len() implies text::is_white(
        #[trigger] after[k],
    ) by {
        assert(after[k] == src[b + k]);
    }
    lemma_joined_is(before, after, i - p, j - b, m - b);
    assert(!text::is_blank(before + after)) by {
        assert((before + after)[i - p] == src[i]);
    }
    assert(src.take(p) + before.take(i - p + 1) == src.take(i + 1));
    assert(after.subrange(j - b, m - b) == src.subrange(j, m));
    let gap = if (src[i] == '(' || src[i] == '[' || src[i] == '{' || src[i] == ',') && (src[j]
        == ')' || src[j] == ']' || src[j] == '}' || src[j] == ',' || src[j] == ';') {
        Seq::empty()
    } else {
        seq![' ']
    };
    let kept = before.take(i - p + 1) + gap + src.subrange(j, m);
    lemma_removed_line(src, a, b, p, t, n, kept);
    lemma_three(src.take(p), before.take(i - p + 1) + gap, src.subrange(j, m));
    lemma_three(src.take(p), before.take(i - p + 1), gap);
}

/// A cut with nothing visible after it on its line leaves the line up to the
/// last visible character before the cut, and its terminator.
pub proof fn law_trailing_cuts_end_the_line(
    src: Seq<char>,
    a: int,
    b: int,
    p: int,
    t: int,
    n: int,
    i: int,
)
    requires
        text::is_line(src, p, t, n),
        p <= i < a < b <= text::past_line(src, n),
        !text::is_white(src[i]),
        forall|k: int| i < k < a || b <= k < t ==> text::is_white(#[trigger] src[k]),
    ensures
        removed_text(src, a, b) == src.take(i + 1) + src.skip(t),
{
    assert(i < t) by {
        if i >= t {
            assert(src[i] == '\r' || src[i] == '\n');
        }
    }
    let before = src.subrange(p, a);
    let after = if b <= t {
        src.subrange(b, t)
    } else {
        Seq::empty()
    };
    assert forall|k: int| i - p < k < before.len() implies text::is_white(#[trigger] before[k]) by {
        assert(before[k] == src[p + k]);
    }
    assert forall|k: int| 0 <= k < after.len() implies text::is_white(#[trigger] after[k]) by {
        assert(after[k] == src[b + k]);
    }
    lemma_trimmed_end(before, i - p + 1);
    text::lemma_trim_left(after, after.len() as int);
    assert(text::trim_left(after).len() == 0);
    let kept = before.take(i - p + 1);
    assert(joined(before, after) == kept);
    assert(kept.last() == src[i]);
    assert(text::trim_right(kept) == kept);
    assert(!text::is_blank(before + after)) by {
        assert((before + after)[i - p] == src[i]);
    }
    lemma_removed_line(src, a, b, p, t, n, kept);
    assert(src.take(p) + kept == src.take(i + 1));
}

/// A cut with nothing visible before it on its line leaves the visible text
/// after it at the start of the line.
pub proof fn law_leading_cuts_start_the_line(
    src: Seq<char>,
    a: int,
    b: int,
    p: int,
    t: int,
    n: int,
    j: int,
    m: int,
)
    requires
        text::is_line(src, p, t, n),
        p <= a < b <= j < m <= t,
        !text::is_white(src[j]),
        !text::is_white(src[m - 1]),
        forall|k: int| p <= k < a || b <= k < j || m <= k < t ==> text::is_white(#[trigger] src[k]),
    ensures
        removed_text(src, a, b) == src.take(p) + src.subrange(j, m) + src.skip(t),
{
    let before = src.subrange(p, a);
    let after = src.subrange(b, t);
    assert forall|k: int| 0 <= k < before.len() implies text::is_white(#[trigger] before[k]) by {
        assert(before[k] == src[p + k]);
    }
    assert forall|k: int| 0 <= k < j - b || m - b <= k < after.len() implies text::is_white(
        #[trigger] after[k],
    ) by {
        assert(after[k] == src[b + k]);
    }
    lemma_trimmed_end(before, 0);
    text::lemma_trim_left(after, j - b);
    let rest = after.skip(j - b);
    assert(text::trim_right(before).len() == 0);
    assert(joined(before, after) == rest);
    assert forall|k: int| m - j <= k < rest.len() implies text::is_white(#[trigger] rest[k]) by {
        assert(rest[k] == after[k + (j - b)]);
    }
    assert(rest[m - j - 1] == src[m - 1]);
    lemma_trimmed_end(rest, m - j);
    assert(rest.take(m - j) == src.subrange(j, m));
    assert(!text::is_blank(before + after)) by {
        assert((before + after)[before.len() + (j - b)] == src[j]);
    }
    lemma_removed_line(src, a, b, p, t, n, src.subrange(j, m));
}

/// Whether what follows a removed line starts at `r`: at the next line, or
/// behind it when it is blank.
pub open spec fn goes_on_at(src: Seq<char>, n: int, r: int) -> bool {
    let e = text::past_line(src, n);
    if e == src.len() {
        r == e
    } else {
        exists|t: int, z: int|
            {
                &&& #[trigger] text::is_line(src, e, t, z)
                &&& if forall|k: int| e <= k < t ==> text::is_white(#[trigger] src[k]) {
                    r == text::past_line(src, z)
                } else {
                    r == e
                }
            }
    }
}

/// Where the text goes on after a removed line.
proof fn lemma_goes_on(src: Seq<char>, q: int, t: int, n: int, y: int) -> (r: int)
    requires
        text::is_line(src, q, t, n),
        0 <= y < text::lines_of(src).len(),
        text::join_lines(text::lines_of(src).skip(y + 1)) == src.skip(text::past_line(src, n)),
        text::line_start(text::lines_of(src), y + 1) == text::past_line(src, n),
    ensures
        goes_on_at(src, n, r),
        0 <= r <= src.len(),
        ({
            let ls = text::lines_of(src);
            let next = if y + 1 < ls.len() && text::is_blank(ls[y + 1].text) {
                y + 2
            } else {
                y + 1
            };
            text::join_lines(ls.skip(next)) == src.skip(r)
        }),
{
    let ls = text::lines_of(src);
    let e = text::past_line(src, n);
    text::lemma_lines_join(src, 0);
    assert(src.skip(0) == src);
    if e == src.len() {
        if y + 1 < ls.len() {
            lemma_nonempty_line(src, y + 1);
            text::lemma_line_extent(ls, y + 1);
        }
        e
    } else {
        let z = text::newline_from(src, e);
        text::lemma_newline_from(src, e);
        let u = if e < z < src.len() && src[z - 1] == '\r' {
            z - 1
        } else {
            z
        };
        assert(text::is_line(src, e, u, z));
        let k = text::lemma_line_number(src, 0, e, u, z);
        assert(y + 1 < ls.len()) by {
            if y + 1 >= ls.len() {
                assert(ls.take(y + 1) == ls);
            }
        }
        assert(k == y + 1) by {
            lemma_nonempty_line(src, y + 1);
            lemma_nonempty_line(src, k);
            text::lemma_line_start_step(ls, y + 1);
            text::lemma_line_start_step(ls, k);
            if k < y + 1 {
                text::lemma_line_start_mono(ls, k + 1, y + 1);
            } else if k > y + 1 {
                text::lemma_line_start_mono(ls, y + 2, k);
            }
        }
        text::lemma_line_extent(ls, k);
        let next_text = src.subrange(e, u);
        if text::is_blank(next_text) {
            assert forall|i: int| e <= i < u implies text::is_white(#[trigger] src[i]) by {
                assert(next_text[i - e] == src[i]);
            }
            text::past_line(src, z)
        } else {
            let i = choose|i: int|
                0 <= i < next_text.len() && !text::is_white(#[trigger] next_text[i]);
            assert(next_text[i] == src[e + i]);
            assert(!(forall|k: int| e <= k < u ==> text::is_white(#[trigger] src[k])));
            e
        }
    }
}

/// No line is empty, terminator included.
proof fn lemma_nonempty_line(src: Seq<char>, k: int)
    requires
        0 <= k < text::lines_of(src).len(),
    ensures
        text::lines_of(src)[k].text.len() + text::lines_of(src)[k].eol.len() > 0,
{
    lemma_nonempty_from(src, 0, k);
}

proof fn lemma_nonempty_from(src: Seq<char>, from: int, k: int)
    requires
        0 <= from <= src.len(),
        0 <= k < text::lines_from(src, from).len(),
    ensures
        text::lines_from(src, from)[k].text.len() + text::lines_from(src, from)[k].eol.len() > 0,
    decreases k,
{
    text::lemma_newline_from(src, from);
    let n = text::newline_from(src, from);
    if k > 0 {
        lemma_nonempty_from(src, n + 1, k - 1);
    }
}

/// A cut with nothing visible around it on its line takes the whole line away,
/// and one blank line directly after it.
pub proof fn law_whole_lines_go(src: Seq<char>, a: int, b: int, p: int, t: int, n: int)
    requires
        text::is_line(src, p, t, n),
        p <= a < b <= text::past_line(src, n),
        forall|k: int| p <= k < a || b <= k < t ==> text::is_white(#[trigger] src[k]),
    ensures
        exists|r: int| #[trigger]
            goes_on_at(src, n, r) && removed_text(src, a, b) == src.take(p) + src.skip(r),
{
    let (x, y) = lemma_removed(src, a, b, p, t, n, p, t, n);
    let ls = text::lines_of(src);
    let before = src.subrange(p, a);
    let after = if b <= t {
        src.subrange(b, t)
    } else {
        Seq::empty()
    };
    let both = before + after;
    assert forall|k: int| 0 <= k < both.len() implies text::is_white(#[trigger] both[k]) by {
        if k < before.len() {
            assert(both[k] == src[p + k]);
        } else {
            assert(both[k] == src[b + (k - before.len())]);
        }
    }
    let r = lemma_goes_on(src, p, t, n, y);
    assert(text::join_lines(Seq::<text::TextLine>::empty()) == Seq::<char>::empty());
    assert(src.take(p) + Seq::<char>::empty() == src.take(p));
    assert(goes_on_at(src, n, r) && removed_text(src, a, b) == src.take(p) + src.skip(r));
}

/// What is left of the first and the last of several lines.
proof fn lemma_two_ends(
    ls: Seq<text::TextLine>,
    x: int,
    y: int,
    before: Seq<char>,
    after: Seq<char>,
    m: int,
)
    requires
        x != y,
        0 <= m <= before.len(),
        m > 0 ==> !text::is_white(before[m - 1]),
        forall|k: int| m <= k < before.len() ==> text::is_white(#[trigger] before[k]),
    ensures
        text::join_lines(residue(ls, x, y, before, after)) == (if m == 0 {
            Seq::empty()
        } else {
            before.take(m) + ls[x].eol
        }) + (if text::is_blank(after) {
            Seq::empty()
        } else {
            after + ls[y].eol
        }),
{
    let none = Seq::<text::TextLine>::empty();
    assert(text::join_lines(none) == Seq::<char>::empty());
    lemma_trimmed_end(before, m);
    let first = text::TextLine { text: text::trim_right(before), eol: ls[x].eol };
    let last = text::TextLine { text: after, eol: ls[y].eol };
    let one = if m == 0 {
        none
    } else {
        seq![first]
    };
    let two = if text::is_blank(after) {
        none
    } else {
        seq![last]
    };
    text::lemma_join_one(first);
    text::lemma_join_one(last);
    text::lemma_join_concat(one, two);
}

/// What a cut over several lines leaves: what is kept of the first one, what
/// is kept of the last one, and the lines after that.
proof fn lemma_over_lines(
    src: Seq<char>,
    a: int,
    b: int,
    p: int,
    s: int,
    m: int,
    q: int,
    t: int,
    n: int,
    i: int,
) -> (r: int)
    requires
        text::is_line(src, p, s, m),
        text::is_line(src, q, t, n),
        p <= a < text::past_line(src, m) <= q < b <= text::past_line(src, n),
        p - 1 <= i < a,
        i >= p ==> !text::is_white(src[i]),
        forall|k: int| i < k < a ==> text::is_white(#[trigger] src[k]),
    ensures
        ({
            let head = if i < p {
                src.take(p)
            } else {
                src.take(i + 1) + src.subrange(s, text::past_line(src, m))
            };
            let after = if b <= t {
                src.subrange(b, t)
            } else {
                Seq::empty()
            };
            &&& goes_on_at(src, n, r)
            &&& text::is_blank(after) ==> removed_text(src, a, b) == head + src.skip(r)
            &&& !text::is_blank(after) ==> removed_text(src, a, b) == head + (after + src.subrange(
                t,
                text::past_line(src, n),
            ) + src.skip(text::past_line(src, n)))
        }),
{
    let (x, y) = lemma_removed(src, a, b, p, s, m, q, t, n);
    let ls = text::lines_of(src);
    let before = src.subrange(p, a);
    let after = if b <= t {
        src.subrange(b, t)
    } else {
        Seq::empty()
    };
    assert forall|k: int| i - p < k < before.len() implies text::is_white(#[trigger] before[k]) by {
        assert(before[k] == src[p + k]);
    }
    lemma_two_ends(ls, x, y, before, after, i - p + 1);
    let head = if i < p {
        src.take(p)
    } else {
        src.take(i + 1) + src.subrange(s, text::past_line(src, m))
    };
    let one = if i < p {
        Seq::empty()
    } else {
        before.take(i - p + 1) + ls[x].eol
    };
    assert(head == src.take(p) + one) by {
        assert(i >= p ==> src.take(p) + before.take(i - p + 1) == src.take(i + 1));
        lemma_three(src.take(p), before.take(i - p + 1), ls[x].eol);
        assert(i < p ==> src.take(p) + one == src.take(p));
    }
    let two = if text::is_blank(after) {
        Seq::empty()
    } else {
        after + ls[y].eol
    };
    let rest = text::join_lines(ls.skip(resume(ls, x, y, before, after)));
    lemma_three(src.take(p), one, two);
    lemma_three(head, two, rest);
    let r = lemma_goes_on(src, q, t, n, y);
    assert(Seq::<char>::empty() + rest == rest);
    r
}

/// Concatenating three texts from the left or from the right.
proof fn lemma_three(x: Seq<char>, y: Seq<char>, z: Seq<char>)
    ensures
        x + y + z == x + (y + z),
{
}

/// A cut over several lines keeps of the first one what stands before it, up
/// to its last visible character and with the line's terminator, and of the
/// last one what stands after it, as it is. A line of which nothing visible
/// is left goes, and with the last one a blank line directly after it.
pub proof fn law_cuts_over_lines_keep_both_ends(
    src: Seq<char>,
    a: int,
    b: int,
    p: int,
    s: int,
    m: int,
    q: int,
    t: int,
    n: int,
    i: int,
)
    requires
        text::is_line(src, p, s, m),
        text::is_line(src, q, t, n),
        p <= a < text::past_line(src, m) <= q < b <= text::past_line(src, n),
        p - 1 <= i < a,
        i >= p ==> !text::is_white(src[i]),
        forall|k: int| i < k < a ==> text::is_white(#[trigger] src[k]),
    ensures
        ({
            let head = if i < p {
                src.take(p)
            } else {
                src.take(i + 1) + src.subrange(s, text::past_line(src, m))
            };
            &&& (exists|k: int| b <= k < t && !text::is_white(#[trigger] src[k]))
                ==> removed_text(src, a, b) == head + src.skip(b)
            &&& (forall|k: int| b <= k < t ==> text::is_white(#[trigger] src[k])) ==> exists|r: int|
                #[trigger]
                goes_on_at(src, n, r) && removed_text(src, a, b) == head + src.skip(r)
        }),
{
    let r = lemma_over_lines(src, a, b, p, s, m, q, t, n, i);
    let after = if b <= t {
        src.subrange(b, t)
    } else {
        Seq::empty()
    };
    if text::is_blank(after) {
        assert forall|k: int| b <= k < t implies text::is_white(#[trigger] src[k]) by {
            assert(after[k - b] == src[k]);
        }
    } else {
        let k = choose|k: int| 0 <= k < after.len() && !text::is_white(#[trigger] after[k]);
        assert(after[k] == src[b + k]);
        assert(src.skip(b) == after + src.subrange(t, text::past_line(src, n)) + src.skip(
            text::past_line(src, n),
        ));
    }
}

/// The bytes of a selection are the characters that they encode.
pub proof fn law_byte_ranges_are_characters(src: Seq<char>, a: int, b: int)
    requires
        0 <= a < b <= src.len(),
    ensures
        ({
            let start = text::byte_len(src.take(a)) as int;
            let end = text::byte_len(src.take(b)) as int;
            &&& removable_bytes(src, start, end)
            &&& removed_bytes(src, start, end) == removed_text(src, a, b)
            &&& removed_bytes(src, start, start) == src
        }),
{
    let start = text::byte_len(src.take(a)) as int;
    let end = text::byte_len(src.take(b)) as int;
    text::lemma_byte_len_prefix(src, a, b);
    text::lemma_char_pos(src, a, start);
    text::lemma_char_pos(src, b, end);
}

// ---------------------------------------------------------------------------
// What removing several ranges does to a text
// ---------------------------------------------------------------------------

/// Whether `rs` are ranges of characters of `src`, each after the one before
/// it.
pub open spec fn in_sequence(src: Seq<char>, rs: Seq<(int, int)>) -> bool {
    &&& forall|k: int| 0 <= k < rs.len() ==> 0 <= (#[trigger] rs[k]).0 <= rs[k].1 <= src.len()
    &&& forall|j: int, k: int|
        0 <= j < k < rs.len() ==> (#[trigger] rs[j]).1 <= (#[trigger] rs[k]).0
}

/// The characters of `src` outside the ranges `rs`, in order.
pub open spec fn outside(src: Seq<char>, rs: Seq<(int, int)>) -> Seq<char>
    decreases rs.len(),
{
    if rs.len() == 0 {
        src
    } else {
        outside(src.take(rs.last().0), rs.drop_last()) + src.skip(rs.last().1)
    }
}

/// The end of the range `a..b` without the whitespace at its end.
pub open spec fn ink_end(src: Seq<char>, a: int, b: int) -> int {
    a + text::trim_right(src.subrange(a, b)).len()
}

/// The cuts by which the ranges `rs` are removed: each range without the
/// whitespace at its end, and ranges with nothing but whitespace between them
/// as one.
pub open spec fn cuts(src: Seq<char>, rs: Seq<(int, int)>) -> Seq<(int, int)>
    decreases rs.len(),
{
    if rs.len() == 0 {
        Seq::empty()
    } else {
        with_cut(
            src,
            cuts(src, rs.drop_last()),
            rs.last().0,
            ink_end(src, rs.last().0, rs.last().1),
        )
    }
}

/// The cuts `m` and one at `a..b` after them.
pub open spec fn with_cut(src: Seq<char>, m: Seq<(int, int)>, a: int, b: int) -> Seq<(int, int)> {
    if a == b {
        m
    } else if m.len() > 0 && text::is_blank(src.subrange(m.last().1, a)) {
        m.drop_last().push((m.last().0, b))
    } else {
        m.push((a, b))
    }
}

/// `src` after the characters of `cs` were removed, those of the last cut
/// first.
pub open spec fn removed_cuts(src: Seq<char>, cs: Seq<(int, int)>) -> Seq<char>
    decreases cs.len(),
{
    if cs.len() == 0 {
        src
    } else {
        removed_cuts(removed_text(src, cs.last().0, cs.last().1), cs.drop_last())
    }
}

/// `src` after the characters of the ranges `rs` were removed.
pub open spec fn removed_ranges(src: Seq<char>, rs: Seq<(int, int)>) -> Seq<char> {
    removed_cuts(src, cuts(src, rs))
}

/// Whether the cuts are ranges of `src` in sequence, each of which ends in a
/// visible character.
spec fn are_solid(src: Seq<char>, cs: Seq<(int, int)>) -> bool {
    &&& in_sequence(src, cs)
    &&& forall|k: int|
        0 <= k < cs.len() ==> (#[trigger] cs[k]).0 < cs[k].1 && !text::is_white(src[cs[k].1 - 1])
}

/// What [`ink_end`] leaves out of a range.
proof fn lemma_ink_end(src: Seq<char>, a: int, b: int)
    requires
        0 <= a <= b <= src.len(),
    ensures
        a <= ink_end(src, a, b) <= b,
        a < ink_end(src, a, b) ==> !text::is_white(src[ink_end(src, a, b) - 1]),
        ink(src.skip(ink_end(src, a, b))) == ink(src.skip(b)),
    decreases b - a,
{
    let s = src.subrange(a, b);
    let e = ink_end(src, a, b);
    if s.len() > 0 && text::is_white(s.last()) {
        assert(s.drop_last() == src.subrange(a, b - 1));
        lemma_ink_end(src, a, b - 1);
        assert(src.skip(b - 1) == seq![src[b - 1]] + src.skip(b));
        lemma_ink_concat(seq![src[b - 1]], src.skip(b));
        lemma_ink_blank(seq![src[b - 1]]);
        assert(Seq::<char>::empty() + ink(src.skip(b)) == ink(src.skip(b)));
    } else {
        assert(e == b);
    }
}

/// What lies behind every range stands behind what is outside them.
proof fn lemma_outside_split(src: Seq<char>, rs: Seq<(int, int)>, k: int)
    requires
        in_sequence(src, rs),
        0 <= k <= src.len(),
        rs.len() > 0 ==> rs.last().1 <= k,
    ensures
        outside(src, rs) == outside(src.take(k), rs) + src.skip(k),
{
    if rs.len() == 0 {
        assert(src == src.take(k) + src.skip(k));
    } else {
        let (a, b) = rs.last();
        assert(src.take(k).take(a) == src.take(a));
        assert(src.skip(b) == src.take(k).skip(b) + src.skip(k));
        let head = outside(src.take(a), rs.drop_last());
        assert(head + (src.take(k).skip(b) + src.skip(k)) == head + src.take(k).skip(b)
            + src.skip(k));
    }
}

/// The visible characters of a text whose end is taken off.
proof fn lemma_ink_cancel(x: Seq<char>, y: Seq<char>, z: Seq<char>)
    requires
        ink(x + z) == ink(y + z),
    ensures
        ink(x) == ink(y),
{
    lemma_ink_concat(x, z);
    lemma_ink_concat(y, z);
    let n = ink(x).len();
    assert((ink(x) + ink(z)).len() == (ink(y) + ink(z)).len());
    assert((ink(x) + ink(z)).take(n as int) == ink(x));
    assert((ink(y) + ink(z)).take(n as int) == ink(y));
}

/// The cuts of ranges in sequence are solid, end where the ranges end, and
/// leave the same visible characters outside.
proof fn lemma_cuts(src: Seq<char>, rs: Seq<(int, int)>)
    requires
        in_sequence(src, rs),
    ensures
        are_solid(src, cuts(src, rs)),
        cuts(src, rs).len() > 0 ==> rs.len() > 0 && cuts(src, rs).last().1 <= rs.last().1,
        ink(outside(src, cuts(src, rs))) == ink(outside(src, rs)),
    decreases rs.len(),
{
    if rs.len() > 0 {
        let less = rs.drop_last();
        let (a, b) = rs.last();
        let m = cuts(src, less);
        let e = ink_end(src, a, b);
        assert forall|k: int| 0 <= k < less.len() implies 0 <= (#[trigger] less[k]).0 <= less[k].1
            <= src.len() by {
            assert(less[k] == rs[k]);
        }
        assert(in_sequence(src, less));
        lemma_cuts(src, less);
        lemma_ink_end(src, a, b);
        if less.len() > 0 {
            assert(less.last() == rs[rs.len() - 2]);
            assert(less.last().1 <= rs[rs.len() - 1].0);
        }
        assert(m.len() > 0 ==> m.last().1 <= a);
        lemma_with_cut_solid(src, m, a, e);
        // The same characters stand before the range.
        lemma_outside_split(src, less, a);
        lemma_outside_split(src, m, a);
        let kept = outside(src.take(a), less);
        lemma_ink_cancel(outside(src.take(a), m), kept, src.skip(a));
        lemma_ink_concat(kept, src.skip(b));
        lemma_ink_with_cut(src, m, a, e);
    }
}

/// One more cut behind solid ones keeps them solid.
proof fn lemma_with_cut_solid(src: Seq<char>, m: Seq<(int, int)>, a: int, e: int)
    requires
        are_solid(src, m),
        m.len() > 0 ==> m.last().1 <= a,
        0 <= a <= e <= src.len(),
        a < e ==> !text::is_white(src[e - 1]),
    ensures
        are_solid(src, with_cut(src, m, a, e)),
        a < e ==> with_cut(src, m, a, e).last().1 == e,
{
    let all = with_cut(src, m, a, e);
    if a < e {
        let low = m.drop_last();
        assert forall|j: int, k: int| 0 <= j < k < all.len() implies (#[trigger] all[j]).1 <= (
        #[trigger] all[k]).0 by {
            assert(all[j] == m[j]);
            if k < m.len() {
                assert(all[k].0 == m[k].0);
            } else {
                assert(all[k].0 == a);
                if j < m.len() - 1 {
                    assert(m[j].1 <= m[m.len() - 1].0);
                }
            }
        }
        assert forall|k: int| 0 <= k < all.len() implies 0 <= (#[trigger] all[k]).0 < all[k].1
            <= src.len() && !text::is_white(src[all[k].1 - 1]) by {
            if k < all.len() - 1 {
                assert(all[k] == m[k]);
            } else if m.len() > 0 {
                assert(m[m.len() - 1] == m.last());
            }
        }
    }
}

/// What one more cut leaves outside.
proof fn lemma_ink_with_cut(src: Seq<char>, m: Seq<(int, int)>, a: int, e: int)
    requires
        are_solid(src, m),
        m.len() > 0 ==> m.last().1 <= a,
        0 <= a <= e <= src.len(),
    ensures
        ink(outside(src, with_cut(src, m, a, e))) == ink(outside(src.take(a), m)) + ink(
            src.skip(e),
        ),
{
    let all = with_cut(src, m, a, e);
    let before = outside(src.take(a), m);
    if a == e {
        lemma_outside_split(src, m, a);
        lemma_ink_concat(before, src.skip(a));
    } else if m.len() > 0 && text::is_blank(src.subrange(m.last().1, a)) {
        let (p, q) = m.last();
        assert(m[m.len() - 1] == m.last());
        let low = outside(src.take(p), m.drop_last());
        assert(all.drop_last() == m.drop_last());
        assert(outside(src, all) == low + src.skip(e));
        assert(src.take(a).take(p) == src.take(p));
        assert(src.take(a).skip(q) == src.subrange(q, a));
        lemma_ink_concat(low, src.subrange(q, a));
        lemma_ink_blank(src.subrange(q, a));
        assert(ink(low) + Seq::<char>::empty() == ink(low));
        lemma_ink_concat(low, src.skip(e));
    } else {
        assert(all.drop_last() == m);
        lemma_ink_concat(before, src.skip(e));
    }
}

/// The end of the last of several ranges.
spec fn last_end(cs: Seq<(int, int)>) -> int {
    if cs.len() > 0 {
        cs.last().1
    } else {
        0
    }
}

/// The removal of the last cut leaves the others in place.
proof fn lemma_solid_after(src: Seq<char>, cs: Seq<(int, int)>)
    requires
        are_solid(src, cs),
        cs.len() > 0,
    ensures
        ({
            let out = removed_text(src, cs.last().0, cs.last().1);
            let e = last_end(cs.drop_last());
            &&& are_solid(src, cs.drop_last())
            &&& are_solid(out, cs.drop_last())
            &&& 0 <= e <= cs.last().0
            &&& e <= out.len()
            &&& out.take(e) == src.take(e)
        }),
{
    let less = cs.drop_last();
    let (a, b) = cs.last();
    assert(cs[cs.len() - 1] == cs.last());
    let out = removed_text(src, a, b);
    let e = last_end(less);
    if less.len() > 0 {
        assert(less.last() == cs[cs.len() - 2]);
    }
    assert forall|k: int| 0 <= k < less.len() implies (#[trigger] less[k]).1 <= e by {
        assert(less[k] == cs[k]);
        if k < less.len() - 1 {
            assert(cs[k].1 <= cs[cs.len() - 2].0);
        }
    }
    assert forall|k: int| 0 <= k < less.len() implies 0 <= (#[trigger] less[k]).0 < less[k].1
        && !text::is_white(src[less[k].1 - 1]) by {
        assert(less[k] == cs[k]);
    }
    assert forall|j: int, k: int| 0 <= j < k < less.len() implies (#[trigger] less[j]).1 <= (
    #[trigger] less[k]).0 by {
        assert(less[j] == cs[j] && less[k] == cs[k]);
    }
    lemma_line_begin_mono(src, a, a);
    law_removal_keeps_what_precedes(src, a, b, e);
    assert forall|k: int| 0 <= k < less.len() implies !text::is_white(
        out[(#[trigger] less[k]).1 - 1],
    ) by {
        assert(out.take(e)[less[k].1 - 1] == src.take(e)[less[k].1 - 1]);
    }
}

/// Removing solid cuts keeps every visible character outside them.
proof fn lemma_ink_removed_cuts(src: Seq<char>, cs: Seq<(int, int)>)
    requires
        are_solid(src, cs),
    ensures
        ink(removed_cuts(src, cs)) == ink(outside(src, cs)),
    decreases cs.len(),
{
    if cs.len() > 0 {
        let less = cs.drop_last();
        let (a, b) = cs.last();
        assert(cs[cs.len() - 1] == cs.last());
        let out = removed_text(src, a, b);
        let e = last_end(less);
        lemma_solid_after(src, cs);
        law_removal_keeps_the_rest(src, a, b);
        lemma_ink_removed_cuts(out, less);
        lemma_ink_tail(src, out, a, b, e);
        lemma_outside_split(out, less, e);
        lemma_outside_split(src.take(a), less, e);
        assert(src.take(a).take(e) == src.take(e));
        assert(src.take(a).skip(e) == src.subrange(e, a));
        let low = outside(src.take(e), less);
        lemma_ink_concat(low, out.skip(e));
        lemma_ink_concat(low, src.subrange(e, a));
        lemma_ink_concat(low + src.subrange(e, a), src.skip(b));
        assert(ink(low) + (ink(src.subrange(e, a)) + ink(src.skip(b))) == ink(low) + ink(
            src.subrange(e, a),
        ) + ink(src.skip(b)));
    }
}

/// What a removal leaves behind what it keeps in place.
proof fn lemma_ink_tail(src: Seq<char>, out: Seq<char>, a: int, b: int, e: int)
    requires
        0 <= e <= a <= b <= src.len(),
        e <= out.len(),
        out.take(e) == src.take(e),
        ink(out) == ink(src.take(a)) + ink(src.skip(b)),
    ensures
        ink(out.skip(e)) == ink(src.subrange(e, a)) + ink(src.skip(b)),
{
    let head = src.take(e);
    assert(out == head + out.skip(e));
    lemma_ink_concat(head, out.skip(e));
    assert(src.take(a) == head + src.subrange(e, a));
    lemma_ink_concat(head, src.subrange(e, a));
    let n = ink(head).len() as int;
    let x = ink(out.skip(e));
    let y = ink(src.subrange(e, a)) + ink(src.skip(b));
    assert((ink(head) + x).skip(n) == x);
    assert(ink(head) + ink(src.subrange(e, a)) + ink(src.skip(b)) == ink(head) + y);
    assert((ink(head) + y).skip(n) == y);
}

/// What stands before the ranges stays where it is: everything before the
/// line of the first one, and on that line everything up to any visible
/// character. So the comments of the findings before one stay in place when
/// its own are removed.
pub proof fn law_removals_keep_what_precedes(src: Seq<char>, rs: Seq<(int, int)>, e: int)
    requires
        in_sequence(src, rs),
        0 <= e <= src.len(),
        rs.len() > 0 ==> e <= rs[0].0,
        rs.len() > 0 ==> e <= line_begin(src, rs[0].0) || !text::is_white(src[e - 1]),
    ensures
        e <= removed_ranges(src, rs).len(),
        removed_ranges(src, rs).take(e) == src.take(e),
{
    if rs.len() > 0 {
        let low = rs[0].0;
        lemma_cuts(src, rs);
        assert forall|k: int| 0 <= k < rs.len() implies low <= (#[trigger] rs[k]).0 by {
            if k > 0 {
                assert(rs[0].1 <= rs[k].0);
            }
        }
        lemma_cuts_low(src, rs, low);
        let cs = cuts(src, rs);
        if cs.len() > 0 {
            assert(low <= cs[0].0);
            lemma_line_begin_mono(src, low, cs[0].0);
        }
        lemma_removed_cuts_start(src, cs, e);
    }
}

/// Cuts start where ranges do.
proof fn lemma_cuts_low(src: Seq<char>, rs: Seq<(int, int)>, e: int)
    requires
        forall|k: int| 0 <= k < rs.len() ==> e <= (#[trigger] rs[k]).0,
    ensures
        forall|k: int| 0 <= k < cuts(src, rs).len() ==> e <= (#[trigger] cuts(src, rs)[k]).0,
    decreases rs.len(),
{
    if rs.len() > 0 {
        let less = rs.drop_last();
        assert forall|k: int| 0 <= k < less.len() implies e <= (#[trigger] less[k]).0 by {
            assert(less[k] == rs[k]);
        }
        lemma_cuts_low(src, less, e);
        assert(e <= rs[rs.len() - 1].0);
        let m = cuts(src, less);
        assert(m.len() > 0 ==> e <= m[m.len() - 1].0);
    }
}

proof fn lemma_removed_cuts_start(src: Seq<char>, cs: Seq<(int, int)>, e: int)
    requires
        are_solid(src, cs),
        0 <= e <= src.len(),
        cs.len() > 0 ==> e <= cs[0].0,
        cs.len() > 0 ==> e <= line_begin(src, cs[0].0) || !text::is_white(src[e - 1]),
    ensures
        e <= removed_cuts(src, cs).len(),
        removed_cuts(src, cs).take(e) == src.take(e),
    decreases cs.len(),
{
    if cs.len() > 0 {
        let (a, b) = cs.last();
        let less = cs.drop_last();
        assert(cs[cs.len() - 1] == cs.last());
        let out = removed_text(src, a, b);
        lemma_solid_after(src, cs);
        if less.len() > 0 {
            let n = last_end(less);
            assert(less[0] == cs[0]);
            assert(less[less.len() - 1] == less.last());
            assert(cs[0].0 <= n) by {
                if less.len() > 1 {
                    assert(less[0].1 <= less[less.len() - 1].0);
                }
            }
            lemma_line_begin_prefix(src, out, cs[0].0, n);
            assert(out.take(n).take(e) == out.take(e));
            assert(src.take(n).take(e) == src.take(e));
            assert(e > 0 ==> out.take(e)[e - 1] == src.take(e)[e - 1]);
            if e == 0 {
                lemma_line_begin_mono(out, cs[0].0, cs[0].0);
            }
        } else {
            law_removal_keeps_what_precedes(src, a, b, e);
        }
        lemma_removed_cuts_start(out, less, e);
    }
}

/// The cuts of ranges depend on nothing behind them.
proof fn lemma_cuts_prefix(src: Seq<char>, out: Seq<char>, rs: Seq<(int, int)>, e: int)
    requires
        in_sequence(src, rs),
        0 <= e <= src.len(),
        e <= out.len(),
        out.take(e) == src.take(e),
        rs.len() > 0 ==> rs.last().1 <= e,
    ensures
        cuts(out, rs) == cuts(src, rs),
    decreases rs.len(),
{
    if rs.len() > 0 {
        let less = rs.drop_last();
        let (a, b) = rs.last();
        lemma_less_in_sequence(src, rs);
        lemma_cuts(src, less);
        lemma_cuts_prefix(src, out, less, e);
        assert(src.take(e).subrange(a, b) == src.subrange(a, b));
        assert(out.take(e).subrange(a, b) == out.subrange(a, b));
        let m = cuts(src, less);
        if m.len() > 0 {
            let q = m.last().1;
            assert(m[m.len() - 1] == m.last());
            assert(src.take(e).subrange(q, a) == src.subrange(q, a));
            assert(out.take(e).subrange(q, a) == out.subrange(q, a));
        }
    }
}

/// All ranges but the last are in sequence and end before it.
proof fn lemma_less_in_sequence(src: Seq<char>, rs: Seq<(int, int)>)
    requires
        in_sequence(src, rs),
        rs.len() > 0,
    ensures
        in_sequence(src, rs.drop_last()),
        0 <= rs.last().0 <= rs.last().1 <= src.len(),
        rs.len() > 1 ==> rs.drop_last().last().1 <= rs.last().0,
{
    let less = rs.drop_last();
    assert(rs[rs.len() - 1] == rs.last());
    assert forall|k: int| 0 <= k < less.len() implies 0 <= (#[trigger] less[k]).0 <= less[k].1
        <= src.len() by {
        assert(less[k] == rs[k]);
    }
    assert forall|j: int, k: int| 0 <= j < k < less.len() implies (#[trigger] less[j]).1 <= (
    #[trigger] less[k]).0 by {
        assert(less[j] == rs[j] && less[k] == rs[k]);
    }
    if rs.len() > 1 {
        assert(less.last() == rs[rs.len() - 2]);
    }
}

/// Whitespace at the end of a range makes no difference, and a range of
/// nothing else is as none.
pub proof fn law_range_tails_make_no_difference(src: Seq<char>, rs: Seq<(int, int)>, e: int)
    requires
        in_sequence(src, rs),
        rs.len() > 0,
        rs.last().0 <= e <= rs.last().1,
        forall|k: int| e <= k < rs.last().1 ==> text::is_white(#[trigger] src[k]),
    ensures
        removed_ranges(src, rs) == removed_ranges(src, rs.drop_last().push((rs.last().0, e))),
        e == rs.last().0 ==> removed_ranges(src, rs) == removed_ranges(src, rs.drop_last()),
{
    let (a, b) = rs.last();
    lemma_less_in_sequence(src, rs);
    let other = rs.drop_last().push((a, e));
    assert(other.drop_last() == rs.drop_last());
    lemma_ink_end_is(src, a, e, b);
    if e == a {
        assert(src.subrange(a, a) == Seq::<char>::empty());
    }
}

/// Whitespace at the end of a range does not move its last visible character.
proof fn lemma_ink_end_is(src: Seq<char>, a: int, e: int, b: int)
    requires
        0 <= a <= e <= b <= src.len(),
        forall|k: int| e <= k < b ==> text::is_white(#[trigger] src[k]),
    ensures
        ink_end(src, a, e) == ink_end(src, a, b),
    decreases b - e,
{
    if e < b {
        let s = src.subrange(a, b);
        assert(s.last() == src[b - 1]);
        assert(s.drop_last() == src.subrange(a, b - 1));
        lemma_ink_end_is(src, a, e, b - 1);
    }
}

/// A range that ends in a visible character, with a visible character between
/// it and the ranges before it, is removed on its own, before those.
pub proof fn law_ranges_apart_go_one_by_one(src: Seq<char>, rs: Seq<(int, int)>, k: int)
    requires
        in_sequence(src, rs),
        rs.len() > 0,
        rs.last().0 < rs.last().1,
        !text::is_white(src[rs.last().1 - 1]),
        rs.len() > 1 ==> rs[rs.len() - 2].1 <= k < rs.last().0 && !text::is_white(src[k]),
    ensures
        removed_ranges(src, rs) == removed_ranges(
            removed_text(src, rs.last().0, rs.last().1),
            rs.drop_last(),
        ),
{
    let (a, b) = rs.last();
    let less = rs.drop_last();
    let m = cuts(src, less);
    lemma_less_in_sequence(src, rs);
    lemma_cuts(src, less);
    lemma_ends_visible(src, a, b);
    let out = removed_text(src, a, b);
    if m.len() > 0 {
        let gap = src.subrange(m.last().1, a);
        assert(m[m.len() - 1] == m.last());
        assert(less.last() == rs[rs.len() - 2]);
        assert(gap[k - m.last().1] == src[k]);
        assert(!text::is_blank(gap));
    }
    assert(cuts(src, rs) == m.push((a, b)));
    assert(m.push((a, b)).drop_last() == m);
    if less.len() > 0 {
        assert(less.last() == rs[rs.len() - 2]);
        law_removal_keeps_what_precedes(src, a, b, k + 1);
        lemma_cuts_prefix(src, out, less, k + 1);
    }
}

/// A range that ends in a visible character ends there.
proof fn lemma_ends_visible(src: Seq<char>, a: int, b: int)
    requires
        0 <= a < b <= src.len(),
        !text::is_white(src[b - 1]),
    ensures
        ink_end(src, a, b) == b,
{
    assert(src.subrange(a, b).last() == src[b - 1]);
}

/// Two ranges that end in visible characters, with nothing visible between
/// them, are removed as one.
pub proof fn law_close_ranges_go_together(src: Seq<char>, rs: Seq<(int, int)>)
    requires
        in_sequence(src, rs),
        rs.len() > 1,
        rs[rs.len() - 2].0 < rs[rs.len() - 2].1,
        rs.last().0 < rs.last().1,
        !text::is_white(src[rs[rs.len() - 2].1 - 1]),
        !text::is_white(src[rs.last().1 - 1]),
        forall|k: int|
            rs[rs.len() - 2].1 <= k < rs.last().0 ==> text::is_white(#[trigger] src[k]),
    ensures
        removed_ranges(src, rs) == removed_ranges(
            src,
            rs.take(rs.len() - 2).push((rs[rs.len() - 2].0, rs.last().1)),
        ),
{
    let (p, q) = rs[rs.len() - 2];
    let (a, b) = rs.last();
    let less = rs.drop_last();
    let low = less.drop_last();
    let one = rs.take(rs.len() - 2).push((p, b));
    lemma_less_in_sequence(src, rs);
    lemma_less_in_sequence(src, less);
    assert(rs.take(rs.len() - 2) == low);
    assert(one.drop_last() == low);
    assert(less.last() == (p, q));
    lemma_ends_visible(src, p, q);
    lemma_ends_visible(src, a, b);
    lemma_ends_visible(src, p, b);
    let m = cuts(src, low);
    let n = cuts(src, less);
    assert(n == with_cut(src, m, p, q));
    assert(n.last().1 == q);
    let gap = src.subrange(q, a);
    assert forall|k: int| 0 <= k < gap.len() implies text::is_white(#[trigger] gap[k]) by {
        assert(gap[k] == src[q + k]);
    }
    assert(cuts(src, rs) == n.drop_last().push((n.last().0, b)));
    if m.len() > 0 && text::is_blank(src.subrange(m.last().1, p)) {
        assert(n.drop_last() == m.drop_last());
    } else {
        assert(n.drop_last() == m);
    }
    assert(cuts(src, one) == with_cut(src, m, p, b));
}

/// Removing ranges takes away exactly their characters, whitespace aside:
/// every visible character outside them stays, in order.
pub proof fn law_removals_keep_the_rest(src: Seq<char>, rs: Seq<(int, int)>)
    requires
        in_sequence(src, rs),
    ensures
        ink(removed_ranges(src, rs)) == ink(outside(src, rs)),
{
    lemma_cuts(src, rs);
    lemma_ink_removed_cuts(src, cuts(src, rs));
}

// ---------------------------------------------------------------------------
// Removing a selection
// ---------------------------------------------------------------------------

/// The outcome of a removal: the new content and the removed byte range.
#[derive(Debug, PartialEq, Eq)]
pub struct RemovalOutcome {
    /// The edited source text.
    pub content: String,
    /// The byte range that was removed; of several, from the first to the
    /// last.
    pub removed_range: Range<usize>,
}

impl Clone for RemovalOutcome {
    fn clone(&self) -> (r: Self)
        ensures
            r == *self,
    {
        RemovalOutcome {
            content: self.content.clone(),
            removed_range: self.removed_range.start..self.removed_range.end,
        }
    }
}

/// Removes `selection` (a byte range) from `source`, cleaning up the
/// affected lines.
///
/// The selection is empty or lies on character boundaries. An empty one
/// changes nothing. One that takes in a line's terminator removes the line,
/// or what it holds of it, as one that ends before the terminator.
pub fn remove_selection(source: &str, selection: &Range<usize>) -> (r: RemovalOutcome)
    requires
        removable_bytes(source@, selection.start as int, selection.end as int),
    ensures
        r.content@ == removed_bytes(source@, selection.start as int, selection.end as int),
        r.removed_range == *selection,
{
    let range = selection.start..selection.end;
    if selection.start == selection.end {
        return RemovalOutcome { content: source.to_owned(), removed_range: range };
    }
    let cs = text::chars_of(source);
    match (text::find_char_pos(&cs, selection.start), text::find_char_pos(&cs, selection.end)) {
        (Some(a), Some(b)) => {
            proof {
                lemma_positions(cs@, a as int, b as int);
            }
            let content = remove_chars(&cs, a, b);
            RemovalOutcome { content: text::string_of(&content), removed_range: range }
        },
        _ => RemovalOutcome { content: source.to_owned(), removed_range: range },
    }
}

/// A smaller byte offset belongs to a smaller position.
proof fn lemma_positions(s: Seq<char>, a: int, b: int)
    requires
        0 <= a <= s.len(),
        0 <= b <= s.len(),
    ensures
        a < b <==> text::byte_len(s.take(a)) < text::byte_len(s.take(b)),
{
    if a < b {
        text::lemma_byte_len_prefix(s, a, b);
    } else {
        text::lemma_byte_len_prefix(s, b, a);
    }
}

/// The characters of a source without those at `a..b`, the affected lines
/// cleaned up.
fn remove_chars(cs: &Vec<char>, a: usize, b: usize) -> (r: Vec<char>)
    requires
        a < b,
        removable(cs@, a as int, b as int),
        text::byte_len(cs@) <= usize::MAX,
    ensures
        r@ == removed_text(cs@, a as int, b as int),
{
    let lines = text::split_lines(cs);
    let ghost ls = text::lines_of(cs@);
    proof {
        lemma_cut(cs@, a as int, b as int);
        assert(lines@.len() == text::buf_lines(lines@).len());
    }
    let (first, last) = line_indices(&lines, a, b);
    assert(text::buf_lines(lines@)[last as int] == lines@[last as int].line());
    assert(lines@[last as int].text@.len() == ls[last as int].text.len());
    assert(lines@[first as int].pos == text::line_start(ls, first as int));
    assert(lines@[last as int].pos == text::line_start(ls, last as int));
    assert(last == cut_last(cs@, b as int));
    assert(cut_end(cs@, b as int) == text::line_start(ls, last as int)
        + ls[last as int].text.len());
    assert(lines@[last as int].pos + lines@[last as int].text@.len() <= cs.len());
    let from: usize = lines[first].pos;
    let to: usize = lines[last].pos + lines[last].text.len();
    assert(to == cut_end(cs@, b as int));
    let before = text::slice_of(cs, from, a);
    let after = if b <= to {
        text::slice_of(cs, b, to)
    } else {
        Vec::new()
    };
    assert(before@ == cut_before(cs@, a as int));
    assert(after@ == cut_after(cs@, b as int));
    emit_cut(&lines, first, last, &before, &after)
}

/// The text of `lines` when only `before` is kept of line `first`, only
/// `after` of line `last`, and nothing of the lines between them.
fn emit_cut(
    lines: &Vec<LineBuf>,
    first: usize,
    last: usize,
    before: &Vec<char>,
    after: &Vec<char>,
) -> (r: Vec<char>)
    requires
        first <= last < lines.len(),
    ensures
        ({
            let ls = text::buf_lines(lines@);
            r@ == text::join_lines(
                ls.take(first as int) + residue(ls, first as int, last as int, before@, after@)
                    + ls.skip(resume(ls, first as int, last as int, before@, after@)),
            )
        }),
{
    let ghost ls = text::buf_lines(lines@);
    let tail_gone = if first == last {
        text::blank(before) && text::blank(after)
    } else {
        text::blank(after)
    };
    proof {
        lemma_blank_concat(before@, after@);
    }
    let next: usize = if tail_gone {
        collapse_following_blank(lines, last)
    } else {
        last + 1
    };
    assert(last + 1 < lines.len() ==> ls[last + 1].text == lines@[last + 1].text@);
    assert(next == resume(ls, first as int, last as int, before@, after@));
    let mut out: Vec<char> = Vec::new();
    emit_lines(&mut out, lines, 0, first);
    emit_residue(&mut out, lines, first, last, before, after);
    emit_lines(&mut out, lines, next, lines.len());
    proof {
        lemma_pieces(
            ls,
            first as int,
            residue(ls, first as int, last as int, before@, after@),
            next as int,
        );
    }
    out
}

/// The text of a list of lines whose middle was replaced.
proof fn lemma_pieces(
    ls: Seq<text::TextLine>,
    first: int,
    mid: Seq<text::TextLine>,
    next: int,
)
    requires
        0 <= first <= ls.len(),
        0 <= next <= ls.len(),
    ensures
        Seq::<char>::empty() + text::join_lines(ls.subrange(0, first)) + text::join_lines(mid)
            + text::join_lines(ls.subrange(next, ls.len() as int)) == text::join_lines(
            ls.take(first) + mid + ls.skip(next),
        ),
{
    assert(ls.subrange(0, first) == ls.take(first));
    assert(ls.subrange(next, ls.len() as int) == ls.skip(next));
    assert(Seq::<char>::empty() + text::join_lines(ls.take(first)) == text::join_lines(
        ls.take(first),
    ));
    text::lemma_join_concat(ls.take(first), mid);
    text::lemma_join_concat(ls.take(first) + mid, ls.skip(next));
}

/// Appends lines `from..to` to `out`, terminators included.
fn emit_lines(out: &mut Vec<char>, lines: &Vec<LineBuf>, from: usize, to: usize)
    requires
        from <= to <= lines.len(),
    ensures
        final(out)@ == old(out)@ + text::join_lines(
            text::buf_lines(lines@).subrange(from as int, to as int),
        ),
{
    let ghost before = out@;
    let ghost ls = text::buf_lines(lines@);
    let mut i: usize = from;
    assert(before + text::join_lines(ls.subrange(from as int, from as int)) == before);
    while i < to
        invariant
            from <= i <= to <= lines.len(),
            ls == text::buf_lines(lines@),
            out@ == before + text::join_lines(ls.subrange(from as int, i as int)),
        decreases to - i,
    {
        let ghost step = out@;
        text::extend_chars(out, &lines[i].text);
        text::extend_chars(out, &lines[i].eol);
        proof {
            let part = ls.subrange(from as int, i + 1);
            assert(part.drop_last() == ls.subrange(from as int, i as int));
            assert(part.last() == lines@[i as int].line());
            assert(out@ == before + text::join_lines(part));
        }
        i += 1;
    }
}

/// Appends what remains of lines `first..=last` to `out` when only `before`
/// is kept of the first and `after` of the last.
fn emit_residue(
    out: &mut Vec<char>,
    lines: &Vec<LineBuf>,
    first: usize,
    last: usize,
    before: &Vec<char>,
    after: &Vec<char>,
)
    requires
        first <= last < lines.len(),
    ensures
        final(out)@ == old(out)@ + text::join_lines(
            residue(text::buf_lines(lines@), first as int, last as int, before@, after@),
        ),
{
    let ghost start = out@;
    let ghost ls = text::buf_lines(lines@);
    let ghost none = Seq::<text::TextLine>::empty();
    let before_blank = text::blank(before);
    let after_blank = text::blank(after);
    proof {
        lemma_blank_concat(before@, after@);
        assert(start + text::join_lines(none) == start);
    }
    if first == last {
        if !(before_blank && after_blank) {
            let line = text::trim_end_chars(&inline_join(before, after));
            text::extend_chars(out, &line);
            text::extend_chars(out, &lines[first].eol);
            proof {
                let l = text::TextLine { text: line@, eol: ls[first as int].eol };
                text::lemma_join_one(l);
                assert(out@ == start + (l.text + l.eol));
            }
        }
    } else {
        let ghost head = if text::is_blank(before@) {
            none
        } else {
            seq![
                text::TextLine { text: text::trim_right(before@), eol: ls[first as int].eol },
            ]
        };
        let ghost tail = if text::is_blank(after@) {
            none
        } else {
            seq![text::TextLine { text: after@, eol: ls[last as int].eol }]
        };
        if !before_blank {
            let line = text::trim_end_chars(before);
            text::extend_chars(out, &line);
            text::extend_chars(out, &lines[first].eol);
            proof {
                let l = text::TextLine { text: line@, eol: ls[first as int].eol };
                text::lemma_join_one(l);
                assert(out@ == start + (l.text + l.eol));
            }
        }
        assert(out@ == start + text::join_lines(head));
        if !after_blank {
            text::extend_chars(out, after);
            text::extend_chars(out, &lines[last].eol);
            proof {
                let l = text::TextLine { text: after@, eol: ls[last as int].eol };
                text::lemma_join_one(l);
                assert(out@ == start + text::join_lines(head) + (l.text + l.eol));
            }
        }
        proof {
            assert(start + text::join_lines(head) + text::join_lines(none) == start
                + text::join_lines(head));
            text::lemma_join_concat(head, tail);
            assert(start + text::join_lines(head) + text::join_lines(tail) == start
                + text::join_lines(head + tail));
        }
    }
}

/// A concatenation is blank exactly when both parts are.
proof fn lemma_blank_concat(a: Seq<char>, b: Seq<char>)
    ensures
        text::is_blank(a + b) <==> text::is_blank(a) && text::is_blank(b),
{
    if text::is_blank(a + b) {
        assert forall|k: int| 0 <= k < a.len() implies text::is_white(#[trigger] a[k]) by {
            assert(text::is_white((a + b)[k]));
        }
        assert forall|k: int| 0 <= k < b.len() implies text::is_white(#[trigger] b[k]) by {
            assert(text::is_white((a + b)[a.len() + k]));
        }
    }
}

/// Joins the fragments left on a line by an inline comment removal.
///
/// A space is inserted only where both fragments look like they belong to
/// distinct tokens: `let x = 1; // TODO` becomes `let x = 1;`. When the cut
/// sits inside brackets (`x(/* TODO */);`) the fragments are joined directly,
/// so the result is `x();` rather than `x( );`.
fn inline_join(before: &Vec<char>, after: &Vec<char>) -> (r: Vec<char>)
    ensures
        r@ == joined(before@, after@),
{
    let mut b = text::trim_end_chars(before);
    let a = text::trim_start_chars(after);
    if b.len() == 0 {
        return a;
    }
    if a.len() == 0 {
        return b;
    }
    let open = b[b.len() - 1];
    let close = a[0];
    let inside = (open == '(' || open == '[' || open == '{' || open == ',') && (close == ')'
        || close == ']' || close == '}' || close == ',' || close == ';');
    if !inside {
        b.push(' ');
        assert(b@ == text::trim_right(before@) + seq![' ']);
    }
    text::extend_chars(&mut b, &a);
    b
}

/// The line after a removed last line, past one directly following blank
/// line, so `// TODO\n\ncode` collapses to `code` instead of leaving a hole.
fn collapse_following_blank(lines: &Vec<LineBuf>, last: usize) -> (r: usize)
    requires
        last < lines.len(),
    ensures
        r == (if last + 1 < lines.len() && text::is_blank(lines@[last + 1].text@) {
            last + 2
        } else {
            last + 1
        }),
{
    let next: usize = last + 1;
    if next < lines.len() && text::blank(&lines[next].text) {
        next + 1
    } else {
        next
    }
}

/// The first and last lines touched by the characters `a..b`.
fn line_indices(lines: &Vec<LineBuf>, a: usize, b: usize) -> (r: (usize, usize))
    requires
        lines.len() > 0,
        a < b,
        forall|k: int|
            0 <= k < lines.len() ==> (#[trigger] lines@[k]).pos == text::line_start(
                text::buf_lines(lines@),
                k,
            ),
    ensures
        r.0 == line_at(text::buf_lines(lines@), a as int, 0),
        r.1 == line_at(text::buf_lines(lines@), b - 1, 0),
        r.0 < lines.len(),
        r.1 < lines.len(),
{
    (find_line(lines, a), find_line(lines, b - 1))
}

/// The line that holds character `i`.
fn find_line(lines: &Vec<LineBuf>, i: usize) -> (r: usize)
    requires
        lines.len() > 0,
        forall|k: int|
            0 <= k < lines.len() ==> (#[trigger] lines@[k]).pos == text::line_start(
                text::buf_lines(lines@),
                k,
            ),
    ensures
        r == line_at(text::buf_lines(lines@), i as int, 0),
        r < lines.len(),
{
    let ghost ls = text::buf_lines(lines@);
    let mut k: usize = 0;
    while k + 1 < lines.len() && lines[k + 1].pos <= i
        invariant
            k < lines.len(),
            ls == text::buf_lines(lines@),
            line_at(ls, i as int, 0) == line_at(ls, i as int, k as int),
            forall|j: int|
                0 <= j < lines.len() ==> (#[trigger] lines@[j]).pos == text::line_start(ls, j),
        decreases lines.len() - k,
    {
        assert(lines@[k + 1].pos == text::line_start(ls, k + 1));
        k += 1;
    }
    proof {
        if k + 1 < lines.len() {
            assert(lines@[k + 1].pos == text::line_start(ls, k + 1));
        }
    }
    k
}

// ---------------------------------------------------------------------------
// Applying a removal to a file
// ---------------------------------------------------------------------------

/// The SHA-256 digest of a byte string, in lower-case hexadecimal notation.
pub uninterp spec fn sha256_hex(bytes: Seq<u8>) -> Seq<char>;

/// The SHA-256 digest of `bytes` in hexadecimal notation; calls
/// `sha2::Sha256`. The digest depends on the bytes alone and takes 64
/// characters.
#[verifier::external_body]
fn hex(bytes: &[u8]) -> (r: String)
    ensures
        r@ == sha256_hex(bytes@),
        r@.len() == 64,
{
    let mut hasher = Sha256::new();
    hasher.update(bytes);
    format!("{:x}", hasher.finalize())
}

/// A snapshot of a file taken at scan time, used to detect concurrent edits
/// before a removal is written.
#[derive(Debug, PartialEq, Eq)]
pub struct FileSnapshot {
    /// Repository-relative path.
    pub path: String,
    /// SHA-256 hex digest of the file content at scan time.
    pub sha256: String,
}

impl Clone for FileSnapshot {
    fn clone(&self) -> (r: Self)
        ensures
            r == *self,
    {
        FileSnapshot { path: self.path.clone(), sha256: self.sha256.clone() }
    }
}

impl FileSnapshot {
    /// The snapshot of the file at `path` when it holds `content`.
    pub fn capture(path: &str, content: &[u8]) -> (r: Self)
        ensures
            r.path@ == path@,
            r.sha256@ == sha256_hex(content@),
            r.sha256@.len() == 64,
    {
        FileSnapshot { path: path.to_owned(), sha256: hex(content) }
    }
}

/// Errors produced while removing comments.
#[derive(Debug, PartialEq, Eq)]
pub enum RemoveError {
    /// The selection is not a range of the file that can be removed, or
    /// starts before the end of the one before it.
    OutOfBounds {
        /// The offending range.
        range: Range<usize>,
        /// The file size in bytes.
        len: usize,
    },
    /// The file changed since the scan snapshot was taken.
    Changed {
        /// The file that changed.
        path: String,
    },
    /// The file could not be read.
    Read {
        /// The file that could not be read.
        path: String,
        /// What went wrong.
        source: String,
    },
    /// The edited file could not be written.
    Write {
        /// The file that could not be written.
        path: String,
        /// What went wrong.
        source: String,
    },
}

impl RemoveError {
    /// The text of [`Self::message`].
    pub open spec fn text(self) -> Seq<char> {
        match self {
            RemoveError::OutOfBounds { range, len } => "selection "@ + text::decimal(
                range.start as nat,
            ) + ".."@ + text::decimal(range.end as nat) + " is out of bounds for file of "@
                + text::decimal(len as nat) + " bytes"@,
            RemoveError::Changed { path } => "file "@ + path@
                + " changed since it was scanned; removal skipped"@,
            RemoveError::Read { path, source } => "failed to read "@ + path@ + ": "@ + source@,
            RemoveError::Write { path, source } => "failed to write "@ + path@ + ": "@ + source@,
        }
    }

    /// A human-readable description of the error.
    pub fn message(&self) -> (r: String)
        ensures
            r@ == self.text(),
    {
        match self {
            RemoveError::OutOfBounds { range, len } => {
                let mut s = "selection ".to_owned();
                s.append(text::decimal_string(range.start).as_str());
                s.append("..");
                s.append(text::decimal_string(range.end).as_str());
                s.append(" is out of bounds for file of ");
                s.append(text::decimal_string(*len).as_str());
                s.append(" bytes");
                s
            },
            RemoveError::Changed { path } => {
                let mut s = "file ".to_owned();
                s.append(path.as_str());
                s.append(" changed since it was scanned; removal skipped");
                s
            },
            RemoveError::Read { path, source } => {
                let mut s = "failed to read ".to_owned();
                s.append(path.as_str());
                s.append(": ");
                s.append(source.as_str());
                s
            },
            RemoveError::Write { path, source } => {
                let mut s = "failed to write ".to_owned();
                s.append(path.as_str());
                s.append(": ");
                s.append(source.as_str());
                s
            },
        }
    }
}

/// Whether a file that holds `bytes` is still the text that was snapshotted
/// with digest `sha256`.
pub open spec fn is_unchanged(bytes: Seq<u8>, sha256: Seq<char>) -> bool {
    sha256_hex(bytes) == sha256 && vstd::utf8::valid_utf8(bytes)
}

/// What removing `selection` from a file at `path` that holds `bytes` gives,
/// when its snapshot has the digest `sha256`.
pub open spec fn is_removal(
    path: Seq<char>,
    bytes: Seq<u8>,
    selection: Range<usize>,
    sha256: Seq<char>,
    r: Result<RemovalOutcome, RemoveError>,
) -> bool {
    let src = vstd::utf8::decode_utf8(bytes);
    let can = removable_bytes(src, selection.start as int, selection.end as int);
    match r {
        Ok(outcome) => {
            &&& is_unchanged(bytes, sha256)
            &&& can
            &&& outcome.content@ == removed_bytes(
                src,
                selection.start as int,
                selection.end as int,
            )
            &&& outcome.removed_range == selection
        },
        Err(RemoveError::Changed { path: p }) => p@ == path && !is_unchanged(bytes, sha256),
        Err(RemoveError::OutOfBounds { range, len }) => {
            &&& is_unchanged(bytes, sha256)
            &&& !can
            &&& range == selection
            &&& len == bytes.len()
        },
        Err(_) => false,
    }
}

/// Removes `selection` from the file at `path`, which holds `bytes`, after
/// verifying that the file still matches `expected`. The outcome's content is
/// what the file is to hold next.
///
/// # Errors
///
/// Returns [`RemoveError::Changed`] when the file no longer matches the
/// snapshot or is not UTF-8, and [`RemoveError::OutOfBounds`] for selections
/// that are no removable range of the file.
pub fn apply_removal(
    path: &str,
    bytes: &[u8],
    selection: &Range<usize>,
    expected: &FileSnapshot,
) -> (r: Result<RemovalOutcome, RemoveError>)
    ensures
        is_removal(path@, bytes@, *selection, expected.sha256@, r),
{
    if hex(bytes) != expected.sha256 {
        return Err(RemoveError::Changed { path: path.to_owned() });
    }
    match text::decode_bytes(bytes) {
        None => Err(RemoveError::Changed { path: path.to_owned() }),
        Some(source) => {
            let range = selection.start..selection.end;
            if can_remove(source.as_str(), selection) {
                Ok(remove_selection(source.as_str(), selection))
            } else {
                Err(RemoveError::OutOfBounds { range, len: bytes.len() })
            }
        },
    }
}

/// A file is edited only when it is unchanged and the selection is empty or
/// lies on its character boundaries; else it is an error that says which of
/// the two did not hold.
pub proof fn law_changed_files_are_left_alone(
    path: Seq<char>,
    bytes: Seq<u8>,
    selection: Range<usize>,
    sha256: Seq<char>,
    r: Result<RemovalOutcome, RemoveError>,
)
    requires
        is_removal(path, bytes, selection, sha256, r),
    ensures
        ({
            let src = vstd::utf8::decode_utf8(bytes);
            let same = sha256_hex(bytes) == sha256 && vstd::utf8::valid_utf8(bytes);
            let fits = if selection.start == selection.end {
                selection.end <= text::byte_len(src)
            } else {
                selection.start < selection.end && text::is_boundary(src, selection.start as int)
                    && text::is_boundary(src, selection.end as int)
            };
            &&& r is Ok <==> same && fits
            &&& !same ==> (r matches Err(RemoveError::Changed { path: p }) && p@ == path)
            &&& same && !fits ==> (r matches Err(RemoveError::OutOfBounds { range, len }) && range
                == selection && len == bytes.len())
            &&& r matches Ok(outcome) ==> outcome.removed_range == selection && (selection.start
                == selection.end ==> outcome.content@ == src)
        }),
{
}

/// Whether the byte range `selection` of `source` can be removed.
pub fn can_remove(source: &str, selection: &Range<usize>) -> (r: bool)
    ensures
        r == removable_bytes(source@, selection.start as int, selection.end as int),
{
    if selection.start >= selection.end {
        return selection.start == selection.end && selection.end <= text::str_bytes(source);
    }
    let cs = text::chars_of(source);
    text::find_char_pos(&cs, selection.start).is_some() && text::find_char_pos(
        &cs,
        selection.end,
    ).is_some()
}

// ---------------------------------------------------------------------------
// Applying several removals to a file
// ---------------------------------------------------------------------------

/// Byte ranges as pairs of offsets.
pub open spec fn byte_pairs(rs: Seq<Range<usize>>) -> Seq<(int, int)> {
    rs.map_values(|r: Range<usize>| (r.start as int, r.end as int))
}

/// The byte ranges `bs` as ranges of characters of `src`, without the empty
/// ones.
pub open spec fn char_ranges(src: Seq<char>, bs: Seq<(int, int)>) -> Seq<(int, int)>
    decreases bs.len(),
{
    if bs.len() == 0 {
        Seq::empty()
    } else if bs.last().0 == bs.last().1 {
        char_ranges(src, bs.drop_last())
    } else {
        char_ranges(src, bs.drop_last()).push(
            (text::char_pos(src, bs.last().0), text::char_pos(src, bs.last().1)),
        )
    }
}

/// Whether the range at index `k` can be removed and starts no earlier than
/// the one before it ends.
pub open spec fn follows(src: Seq<char>, bs: Seq<(int, int)>, k: int) -> bool {
    removable_bytes(src, bs[k].0, bs[k].1) && (k > 0 ==> bs[k - 1].1 <= bs[k].0)
}

/// The byte range from the start of the first range to the end of the last.
pub open spec fn hull(bs: Seq<(int, int)>) -> (int, int) {
    if bs.len() == 0 {
        (0, 0)
    } else {
        (bs[0].0, bs.last().1)
    }
}

/// What removing the byte ranges `bs` from a file at `path` that holds
/// `bytes` gives, when its snapshot has the digest `sha256`: every visible
/// character outside the ranges stays, in order.
pub open spec fn are_removals(
    path: Seq<char>,
    bytes: Seq<u8>,
    bs: Seq<(int, int)>,
    sha256: Seq<char>,
    r: Result<RemovalOutcome, RemoveError>,
) -> bool {
    let src = vstd::utf8::decode_utf8(bytes);
    match r {
        Ok(outcome) => {
            &&& is_unchanged(bytes, sha256)
            &&& forall|k: int| 0 <= k < bs.len() ==> #[trigger] follows(src, bs, k)
            &&& outcome.content@ == removed_ranges(src, char_ranges(src, bs))
            &&& ink(outcome.content@) == ink(outside(src, char_ranges(src, bs)))
            &&& (outcome.removed_range.start as int, outcome.removed_range.end as int) == hull(bs)
        },
        Err(RemoveError::Changed { path: p }) => p@ == path && !is_unchanged(bytes, sha256),
        Err(RemoveError::OutOfBounds { range, len }) => {
            &&& is_unchanged(bytes, sha256)
            &&& exists|k: int|
                {
                    &&& 0 <= k < bs.len()
                    &&& !(#[trigger] follows(src, bs, k))
                    &&& forall|j: int| 0 <= j < k ==> #[trigger] follows(src, bs, j)
                    &&& (range.start as int, range.end as int) == bs[k]
                }
            &&& len == bytes.len()
        },
        Err(_) => false,
    }
}

/// Several ranges are removed from a file only when it is unchanged and the
/// ranges lie on its character boundaries, each after the one before it; what
/// was removed reaches from the first of them to the last, and without any
/// nothing changes.
pub proof fn law_ranges_are_removed_from_unchanged_files(
    path: Seq<char>,
    bytes: Seq<u8>,
    bs: Seq<(int, int)>,
    sha256: Seq<char>,
    r: Result<RemovalOutcome, RemoveError>,
)
    requires
        are_removals(path, bytes, bs, sha256, r),
    ensures
        ({
            let src = vstd::utf8::decode_utf8(bytes);
            let same = sha256_hex(bytes) == sha256 && vstd::utf8::valid_utf8(bytes);
            &&& !same <==> (r matches Err(RemoveError::Changed { path: p }))
            &&& r matches Ok(outcome) ==> {
                &&& same
                &&& forall|k: int|
                    0 <= k < bs.len() && (#[trigger] bs[k]).0 != bs[k].1 ==> bs[k].0 < bs[k].1
                        && text::is_boundary(src, bs[k].0) && text::is_boundary(src, bs[k].1)
                &&& forall|k: int| 0 < k < bs.len() ==> bs[k - 1].1 <= (#[trigger] bs[k]).0
                &&& bs.len() == 0 ==> outcome.content@ == src
                &&& bs.len() > 0 ==> outcome.removed_range.start == bs[0].0
                    && outcome.removed_range.end == bs.last().1
                &&& bs.len() == 1 && bs[0].0 < bs[0].1 && !text::is_white(
                    src[text::char_pos(src, bs[0].1) - 1],
                ) ==> outcome.content@ == removed_text(
                    src,
                    text::char_pos(src, bs[0].0),
                    text::char_pos(src, bs[0].1),
                )
            }
            &&& r matches Err(RemoveError::OutOfBounds { range, len }) ==> len == bytes.len()
                && exists|k: int|
                0 <= k < bs.len() && #[trigger] bs[k] == (range.start as int, range.end as int)
        }),
{
    let src = vstd::utf8::decode_utf8(bytes);
    if let Ok(outcome) = r {
        assert forall|k: int| 0 <= k < bs.len() && (#[trigger] bs[k]).0 != bs[k].1 implies bs[k].0
            < bs[k].1 && text::is_boundary(src, bs[k].0) && text::is_boundary(src, bs[k].1) by {
            assert(follows(src, bs, k));
        }
        assert forall|k: int| 0 < k < bs.len() implies bs[k - 1].1 <= (#[trigger] bs[k]).0 by {
            assert(follows(src, bs, k));
        }
        if bs.len() == 1 && bs[0].0 < bs[0].1 {
            let a = text::char_pos(src, bs[0].0);
            let b = text::char_pos(src, bs[0].1);
            assert(text::at_byte(src, a, bs[0].0));
            assert(text::at_byte(src, b, bs[0].1));
            lemma_positions(src, a, b);
            let rs = char_ranges(src, bs);
            assert(bs.drop_last() == Seq::<(int, int)>::empty());
            assert(char_ranges(src, bs.drop_last()) == Seq::<(int, int)>::empty());
            assert(rs == seq![(a, b)]);
            if !text::is_white(src[b - 1]) {
                law_ranges_apart_go_one_by_one(src, rs, 0);
                assert(rs.drop_last() == Seq::<(int, int)>::empty());
            }
        }
    }
}

/// Ranges of bytes that are not empty are the ranges of characters that they
/// encode.
pub proof fn law_byte_ranges_are_character_ranges(src: Seq<char>, bs: Seq<(int, int)>)
    requires
        forall|k: int|
            0 <= k < bs.len() ==> (#[trigger] bs[k]).0 != bs[k].1 && text::is_boundary(src, bs[k].0)
                && text::is_boundary(src, bs[k].1),
    ensures
        char_ranges(src, bs).len() == bs.len(),
        forall|k: int|
            0 <= k < bs.len() ==> text::at_byte(
                src,
                (#[trigger] char_ranges(src, bs)[k]).0,
                bs[k].0,
            ) && text::at_byte(src, char_ranges(src, bs)[k].1, bs[k].1),
    decreases bs.len(),
{
    if bs.len() > 0 {
        let less = bs.drop_last();
        assert forall|k: int| 0 <= k < less.len() implies (#[trigger] less[k]).0 != less[k].1
            && text::is_boundary(src, less[k].0) && text::is_boundary(src, less[k].1) by {
            assert(less[k] == bs[k]);
        }
        law_byte_ranges_are_character_ranges(src, less);
        let (s, e) = bs.last();
        assert(bs[bs.len() - 1] == bs.last());
        assert(text::at_byte(src, text::char_pos(src, s), s));
        assert(text::at_byte(src, text::char_pos(src, e), e));
        assert forall|k: int| 0 <= k < bs.len() implies text::at_byte(
            src,
            (#[trigger] char_ranges(src, bs)[k]).0,
            bs[k].0,
        ) && text::at_byte(src, char_ranges(src, bs)[k].1, bs[k].1) by {
            if k < less.len() {
                assert(char_ranges(src, bs)[k] == char_ranges(src, less)[k]);
                assert(less[k] == bs[k]);
            }
        }
    }
}

/// Ranges that follow one another are ranges of characters in sequence.
proof fn lemma_char_ranges(src: Seq<char>, bs: Seq<(int, int)>)
    requires
        forall|k: int| 0 <= k < bs.len() ==> #[trigger] follows(src, bs, k),
    ensures
        in_sequence(src, char_ranges(src, bs)),
        char_ranges(src, bs).len() > 0 ==> bs.len() > 0 && text::byte_len(
            src.take(char_ranges(src, bs).last().1),
        ) <= bs.last().1,
    decreases bs.len(),
{
    if bs.len() > 0 {
        let less = bs.drop_last();
        let low = char_ranges(src, less);
        let (s, e) = bs.last();
        assert(follows(src, bs, bs.len() - 1));
        assert forall|k: int| 0 <= k < less.len() implies #[trigger] follows(src, less, k) by {
            assert(follows(src, bs, k));
        }
        lemma_char_ranges(src, less);
        if less.len() > 0 {
            assert(less.last() == bs[bs.len() - 2]);
        }
        if s != e {
            let a = text::char_pos(src, s);
            let b = text::char_pos(src, e);
            assert(text::at_byte(src, a, s));
            assert(text::at_byte(src, b, e));
            lemma_positions(src, a, b);
            let all = char_ranges(src, bs);
            if low.len() > 0 {
                lemma_positions(src, a, low.last().1);
                assert(low[low.len() - 1] == low.last());
            }
            assert forall|j: int, k: int| 0 <= j < k < all.len() implies (#[trigger] all[j]).1 <= (
            #[trigger] all[k]).0 by {
                assert(all[j] == low[j]);
                if k < low.len() {
                    assert(all[k] == low[k]);
                } else if j < low.len() - 1 {
                    assert(low[j].1 <= low[low.len() - 1].0);
                }
            }
            assert forall|k: int| 0 <= k < all.len() implies 0 <= (#[trigger] all[k]).0 <= all[k].1
                <= src.len() by {
                if k < low.len() {
                    assert(all[k] == low[k]);
                }
            }
        }
    }
}

/// Cuts as pairs of positions.
spec fn cut_pairs(v: Seq<(usize, usize)>) -> Seq<(int, int)> {
    v.map_values(|c: (usize, usize)| (c.0 as int, c.1 as int))
}

/// Adds a cut at `a..b` to the cuts of `cs` before it.
fn push_cut(cs: &Vec<char>, out: &mut Vec<(usize, usize)>, a: usize, b: usize)
    requires
        a <= b <= cs.len(),
        old(out).len() > 0 ==> old(out)@.last().1 <= a,
    ensures
        cut_pairs(final(out)@) == with_cut(
            cs@,
            cut_pairs(old(out)@),
            a as int,
            ink_end(cs@, a as int, b as int),
        ),
        final(out).len() > 0 ==> final(out)@.last().1 <= b,
{
    proof {
        lemma_ink_end(cs@, a as int, b as int);
    }
    let e: usize = a + text::trim_end_chars(&text::slice_of(cs, a, b)).len();
    let ghost before = out@;
    if e > a {
        let n: usize = out.len();
        if n > 0 && text::blank(&text::slice_of(cs, out[n - 1].1, a)) {
            let from: usize = out[n - 1].0;
            out.set(n - 1, (from, e));
            assert(cut_pairs(out@) == cut_pairs(before).drop_last().push((from as int, e as int)));
        } else {
            out.push((a, e));
            assert(cut_pairs(out@) == cut_pairs(before).push((a as int, e as int)));
        }
    }
}

/// The cuts by which the byte ranges of `source` are removed, or the index of
/// the first range that does not follow.
fn plan_cuts(source: &str, cs: &Vec<char>, ranges: &Vec<Range<usize>>) -> (r: Result<
    Vec<(usize, usize)>,
    usize,
>)
    requires
        cs@ == source@,
    ensures
        ({
            let bs = byte_pairs(ranges@);
            match r {
                Ok(v) => {
                    &&& forall|k: int| 0 <= k < bs.len() ==> #[trigger] follows(cs@, bs, k)
                    &&& cut_pairs(v@) == cuts(cs@, char_ranges(cs@, bs))
                },
                Err(k) => {
                    &&& k < bs.len()
                    &&& !follows(cs@, bs, k as int)
                    &&& forall|j: int| 0 <= j < k ==> #[trigger] follows(cs@, bs, j)
                },
            }
        }),
{
    let ghost bs = byte_pairs(ranges@);
    let mut out: Vec<(usize, usize)> = Vec::new();
    let mut i: usize = 0;
    assert(cut_pairs(out@) == cuts(cs@, char_ranges(cs@, bs.take(0))));
    while i < ranges.len()
        invariant
            i <= ranges.len(),
            cs@ == source@,
            bs == byte_pairs(ranges@),
            forall|k: int| 0 <= k < i ==> #[trigger] follows(cs@, bs, k),
            cut_pairs(out@) == cuts(cs@, char_ranges(cs@, bs.take(i as int))),
            out.len() > 0 ==> i > 0 && out@.last().1 <= cs.len() && text::byte_len(
                cs@.take(out@.last().1 as int),
            ) <= bs[i - 1].1,
        decreases ranges.len() - i,
    {
        let range = &ranges[i];
        proof {
            assert(bs[i as int] == (range.start as int, range.end as int));
            assert(i > 0 ==> bs[i - 1] == (ranges@[i - 1].start as int, ranges@[i - 1].end as int));
            assert(bs.take(i + 1).drop_last() == bs.take(i as int));
            assert(bs.take(i + 1).last() == bs[i as int]);
        }
        if !can_remove(source, range) || (i > 0 && range.start < ranges[i - 1].end) {
            return Err(i);
        }
        assert(follows(cs@, bs, i as int));
        if range.start < range.end {
            match (text::find_char_pos(cs, range.start), text::find_char_pos(cs, range.end)) {
                (Some(a), Some(b)) => {
                    proof {
                        lemma_positions(cs@, a as int, b as int);
                        if out.len() > 0 {
                            lemma_positions(cs@, a as int, out@.last().1 as int);
                        }
                    }
                    push_cut(cs, &mut out, a, b);
                    proof {
                        let rs = char_ranges(cs@, bs.take(i as int));
                        let more = char_ranges(cs@, bs.take(i + 1));
                        assert(more == rs.push((a as int, b as int)));
                        assert(more.drop_last() == rs);
                        if out.len() > 0 {
                            lemma_positions(cs@, b as int, out@.last().1 as int);
                        }
                    }
                },
                _ => {},
            }
        }
        i += 1;
    }
    assert(bs.take(i as int) == bs);
    Ok(out)
}

/// A source without the characters of `plan`, those of the last cut removed
/// first.
fn remove_cuts(source: &str, plan: &Vec<(usize, usize)>) -> (r: String)
    requires
        are_solid(source@, cut_pairs(plan@)),
    ensures
        r@ == removed_cuts(source@, cut_pairs(plan@)),
{
    let ghost all = cut_pairs(plan@);
    let mut content = source.to_owned();
    let mut n: usize = plan.len();
    assert(all.take(n as int) == all);
    while n > 0
        invariant
            n <= plan.len(),
            all == cut_pairs(plan@),
            are_solid(content@, all.take(n as int)),
            removed_cuts(content@, all.take(n as int)) == removed_cuts(source@, all),
        decreases n,
    {
        let (a, b) = plan[n - 1];
        proof {
            assert(all[n - 1] == (a as int, b as int));
            assert(all.take(n as int).last() == all[n - 1]);
            assert(all.take(n as int)[n - 1] == all[n - 1]);
            assert(all.take(n as int).drop_last() == all.take(n - 1));
            lemma_solid_after(content@, all.take(n as int));
        }
        let cs = text::chars_of(content.as_str());
        content = text::string_of(&remove_chars(&cs, a, b));
        n -= 1;
    }
    assert(all.take(0) == Seq::<(int, int)>::empty());
    content
}

/// Removes the byte ranges `ranges`, each after the one before it, from the
/// file at `path`, which holds `bytes`, after verifying that the file still
/// matches `expected`. The outcome's content is what the file is to hold
/// next: everything outside the ranges, with the whitespace around them
/// cleaned up.
///
/// # Errors
///
/// Returns [`RemoveError::Changed`] when the file no longer matches the
/// snapshot or is not UTF-8, and [`RemoveError::OutOfBounds`] for the first
/// range that is no removable range of the file or starts before the end of
/// the one before it.
pub fn apply_removals(
    path: &str,
    bytes: &[u8],
    ranges: &Vec<Range<usize>>,
    expected: &FileSnapshot,
) -> (r: Result<RemovalOutcome, RemoveError>)
    ensures
        are_removals(path@, bytes@, byte_pairs(ranges@), expected.sha256@, r),
{
    if hex(bytes) != expected.sha256 {
        return Err(RemoveError::Changed { path: path.to_owned() });
    }
    let source = match text::decode_bytes(bytes) {
        None => {
            return Err(RemoveError::Changed { path: path.to_owned() });
        },
        Some(source) => source,
    };
    let ghost bs = byte_pairs(ranges@);
    let cs = text::chars_of(source.as_str());
    match plan_cuts(source.as_str(), &cs, ranges) {
        Err(k) => {
            assert(bs[k as int] == (ranges@[k as int].start as int, ranges@[k as int].end as int));
            let range = ranges[k].start..ranges[k].end;
            Err(RemoveError::OutOfBounds { range, len: bytes.len() })
        },
        Ok(plan) => {
            proof {
                lemma_char_ranges(cs@, bs);
                lemma_cuts(cs@, char_ranges(cs@, bs));
                law_removals_keep_the_rest(cs@, char_ranges(cs@, bs));
            }
            let n: usize = ranges.len();
            let removed_range = if n == 0 {
                0..0
            } else {
                ranges[0].start..ranges[n - 1].end
            };
            Ok(RemovalOutcome { content: remove_cuts(source.as_str(), &plan), removed_range })
        },
    }
}

} // verus!
