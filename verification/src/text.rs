//! Text primitives: character sequences, UTF-8 lengths, whitespace, lines,
//! searching, and decimal numbers.
//!
//! Strings are modelled as sequences of characters; byte offsets are related
//! to character positions through [`byte_len`].

use vstd::prelude::*;
use vstd::string::*;

verus! {

/// Appends one character to a string; specifies `String::push`.
pub assume_specification[ String::push ](s: &mut String, c: char)
    ensures
        final(s)@ == old(s)@.push(c),
;

// ---------------------------------------------------------------------------
// Conversions
// ---------------------------------------------------------------------------

/// The characters of `s`, in order.
pub fn chars_of(s: &str) -> (r: Vec<char>)
    ensures
        r@ == s@,
        byte_len(r@) <= usize::MAX,
{
    let mut v: Vec<char> = Vec::new();
    let bytes: usize = str_bytes(s);
    assert(byte_len(s@) == bytes);
    for c in it: s.chars()
        invariant
            it.seq() == s@,
            v@ == it.seq().take(it.index() as int),
    {
        v.push(c);
    }
    v
}

/// The string made of `cs`.
pub fn string_of(cs: &Vec<char>) -> (r: String)
    ensures
        r@ == cs@,
{
    let mut s = String::new();
    let mut i: usize = 0;
    while i < cs.len()
        invariant
            i <= cs.len(),
            s@ == cs@.take(i as int),
        decreases cs.len() - i,
    {
        s.push(cs[i]);
        i += 1;
    }
    assert(cs@.take(cs.len() as int) == cs@);
    s
}

/// The characters `from..to` of `cs`.
pub fn slice_of(cs: &Vec<char>, from: usize, to: usize) -> (r: Vec<char>)
    requires
        from <= to <= cs.len(),
    ensures
        r@ == cs@.subrange(from as int, to as int),
{
    let mut v: Vec<char> = Vec::new();
    let mut i: usize = from;
    while i < to
        invariant
            from <= i <= to <= cs.len(),
            v@ == cs@.subrange(from as int, i as int),
        decreases to - i,
    {
        v.push(cs[i]);
        i += 1;
    }
    v
}

/// Appends `more` to `out`.
pub fn extend_chars(out: &mut Vec<char>, more: &Vec<char>)
    ensures
        final(out)@ == old(out)@ + more@,
{
    let ghost before = out@;
    let mut i: usize = 0;
    while i < more.len()
        invariant
            i <= more.len(),
            out@ == before + more@.take(i as int),
        decreases more.len() - i,
    {
        out.push(more[i]);
        i += 1;
    }
    assert(more@.take(more.len() as int) == more@);
}

/// Whether two strings hold the same characters.
pub fn same_text(a: &str, b: &str) -> (r: bool)
    ensures
        r == (a@ == b@),
{
    a.to_owned() == b.to_owned()
}

/// Whether two character vectors are equal.
pub fn same_chars(a: &Vec<char>, b: &Vec<char>) -> (r: bool)
    ensures
        r == (a@ == b@),
{
    if a.len() != b.len() {
        return false;
    }
    let mut i: usize = 0;
    while i < a.len()
        invariant
            i <= a.len(),
            a.len() == b.len(),
            forall|k: int| 0 <= k < i ==> a@[k] == b@[k],
        decreases a.len() - i,
    {
        if a[i] != b[i] {
            return false;
        }
        i += 1;
    }
    assert(a@ =~= b@);
    true
}

/// The texts held by a list of strings.
pub open spec fn texts(v: Seq<String>) -> Seq<Seq<char>> {
    v.map_values(|s: String| s@)
}

/// A copy of a list of strings.
pub fn clone_strings(v: &Vec<String>) -> (r: Vec<String>)
    ensures
        r@ == v@,
{
    let mut out: Vec<String> = Vec::new();
    let mut i: usize = 0;
    while i < v.len()
        invariant
            i <= v.len(),
            out@ == v@.take(i as int),
        decreases v.len() - i,
    {
        out.push(v[i].clone());
        i += 1;
    }
    assert(v@.take(v.len() as int) == v@);
    out
}

/// The text encoded by `bytes`, when they are valid UTF-8; calls
/// `std::str::from_utf8`, which accepts exactly the valid encodings and
/// returns the text they stand for.
#[verifier::external_body]
pub(crate) fn decode_bytes(bytes: &[u8]) -> (r: Option<String>)
    ensures
        match r {
            Some(s) => vstd::utf8::valid_utf8(bytes@) && s@ == vstd::utf8::decode_utf8(bytes@),
            None => !vstd::utf8::valid_utf8(bytes@),
        },
{
    std::str::from_utf8(bytes).ok().map(String::from)
}

// ---------------------------------------------------------------------------
// UTF-8 lengths
// ---------------------------------------------------------------------------

/// The number of bytes `c` takes in UTF-8.
pub open spec fn utf8_width(c: char) -> nat {
    if c as u32 <= 0x7F {
        1
    } else if c as u32 <= 0x7FF {
        2
    } else if c as u32 <= 0xFFFF {
        3
    } else {
        4
    }
}

/// The number of bytes a text takes in UTF-8.
pub open spec fn byte_len(s: Seq<char>) -> nat
    decreases s.len(),
{
    if s.len() == 0 {
        0
    } else {
        byte_len(s.drop_last()) + utf8_width(s.last())
    }
}

/// The number of bytes between position `i` and the start of its line.
pub open spec fn column_at(s: Seq<char>, i: int) -> int
    decreases i,
{
    if i <= 0 || s[i - 1] == '\n' {
        0
    } else {
        column_at(s, i - 1) + utf8_width(s[i - 1])
    }
}

/// The number of line feeds in a text.
pub open spec fn newlines(s: Seq<char>) -> int
    decreases s.len(),
{
    if s.len() == 0 {
        0
    } else if s.last() == '\n' {
        newlines(s.drop_last()) + 1
    } else {
        newlines(s.drop_last())
    }
}

/// The line feeds of two texts add up.
pub proof fn lemma_newlines_concat(a: Seq<char>, b: Seq<char>)
    ensures
        newlines(a + b) == newlines(a) + newlines(b),
    decreases b.len(),
{
    if b.len() == 0 {
        assert(a + b == a);
    } else {
        assert((a + b).drop_last() == a + b.drop_last());
        lemma_newlines_concat(a, b.drop_last());
    }
}

/// A text without a line feed has none.
pub proof fn lemma_no_newlines(s: Seq<char>)
    requires
        forall|k: int| 0 <= k < s.len() ==> s[k] != '\n',
    ensures
        newlines(s) == 0,
    decreases s.len(),
{
    if s.len() > 0 {
        assert forall|k: int| 0 <= k < s.drop_last().len() implies s.drop_last()[k] != '\n' by {
            assert(s[k] != '\n');
        }
        lemma_no_newlines(s.drop_last());
    }
}

/// A column counts the bytes since the last line feed.
pub proof fn lemma_column(s: Seq<char>, i: int) -> (b: int)
    requires
        0 <= i <= s.len(),
    ensures
        0 <= b <= i,
        b > 0 ==> s[b - 1] == '\n',
        forall|k: int| b <= k < i ==> s[k] != '\n',
        column_at(s, i) == byte_len(s.subrange(b, i)),
    decreases i,
{
    if i == 0 || s[i - 1] == '\n' {
        assert(s.subrange(i, i) == Seq::<char>::empty());
        i
    } else {
        let b = lemma_column(s, i - 1);
        assert(s.subrange(b, i).drop_last() == s.subrange(b, i - 1));
        b
    }
}

/// The number of bytes `c` takes in UTF-8.
pub fn width_of(c: char) -> (r: usize)
    ensures
        r == utf8_width(c),
        1 <= r <= 4,
{
    let n: u32 = c as u32;
    if n <= 0x7F {
        1
    } else if n <= 0x7FF {
        2
    } else if n <= 0xFFFF {
        3
    } else {
        4
    }
}

/// The byte length of a concatenation is the sum of the byte lengths.
pub proof fn lemma_byte_len_concat(a: Seq<char>, b: Seq<char>)
    ensures
        byte_len(a + b) == byte_len(a) + byte_len(b),
    decreases b.len(),
{
    if b.len() == 0 {
        assert(a + b == a);
    } else {
        assert((a + b).drop_last() == a + b.drop_last());
        lemma_byte_len_concat(a, b.drop_last());
    }
}

/// The byte length of a single character.
pub proof fn lemma_byte_len_one(c: char)
    ensures
        byte_len(seq![c]) == utf8_width(c),
{
    reveal_with_fuel(byte_len, 2);
    assert(seq![c].drop_last() == Seq::<char>::empty());
}

/// Prefixes of a text grow strictly in bytes as they grow in characters.
pub proof fn lemma_byte_len_prefix(s: Seq<char>, i: int, j: int)
    requires
        0 <= i <= j <= s.len(),
    ensures
        byte_len(s.take(i)) + (j - i) <= byte_len(s.take(j)),
        byte_len(s.subrange(i, j)) == byte_len(s.take(j)) - byte_len(s.take(i)),
        byte_len(s.take(j)) <= byte_len(s),
    decreases j - i,
{
    assert(s.take(i) + s.subrange(i, j) == s.take(j));
    lemma_byte_len_concat(s.take(i), s.subrange(i, j));
    assert(s.take(j) + s.skip(j) == s);
    lemma_byte_len_concat(s.take(j), s.skip(j));
    if i < j {
        lemma_byte_len_prefix(s, i, j - 1);
        assert(s.take(j).drop_last() == s.take(j - 1));
    }
}

/// Two prefixes with the same byte length are the same prefix.
pub proof fn lemma_prefix_unique(s: Seq<char>, i: int, j: int)
    requires
        0 <= i <= s.len(),
        0 <= j <= s.len(),
        byte_len(s.take(i)) == byte_len(s.take(j)),
    ensures
        i == j,
{
    if i < j {
        lemma_byte_len_prefix(s, i, j);
    } else if j < i {
        lemma_byte_len_prefix(s, j, i);
    }
}

/// [`byte_len`] is the length of the UTF-8 encoding.
pub proof fn lemma_byte_len_encode(s: Seq<char>)
    ensures
        byte_len(s) == vstd::utf8::encode_utf8(s).len(),
    decreases s.len(),
{
    if s.len() > 0 {
        let rest = s.drop_first();
        assert(seq![s[0]] + rest == s);
        lemma_byte_len_concat(seq![s[0]], rest);
        lemma_byte_len_one(s[0]);
        lemma_byte_len_encode(rest);
        vstd::utf8::char_is_scalar(s[0]);
        assert(vstd::utf8::encode_scalar(s[0] as u32).len() == utf8_width(s[0]));
    }
}

/// The length of `s` in bytes.
pub fn str_bytes(s: &str) -> (r: usize)
    ensures
        r == byte_len(s@),
{
    proof {
        lemma_byte_len_encode(s@);
    }
    s.as_bytes().len()
}

/// Whether byte offset `b` lies at the start of character `i` of `s` (or at
/// its end, for `i == s.len()`).
pub open spec fn at_byte(s: Seq<char>, i: int, b: int) -> bool {
    0 <= i <= s.len() && byte_len(s.take(i)) == b
}

/// Whether byte offset `b` is a character boundary of `s`.
pub open spec fn is_boundary(s: Seq<char>, b: int) -> bool {
    exists|i: int| at_byte(s, i, b)
}

/// The character position of a byte offset that is a boundary of `s`.
pub open spec fn char_pos(s: Seq<char>, b: int) -> int {
    choose|i: int| at_byte(s, i, b)
}

/// The character position of a boundary is determined by its byte offset.
pub proof fn lemma_char_pos(s: Seq<char>, i: int, b: int)
    requires
        at_byte(s, i, b),
    ensures
        is_boundary(s, b),
        char_pos(s, b) == i,
{
    let j = char_pos(s, b);
    assert(at_byte(s, j, b));
    lemma_prefix_unique(s, i, j);
}

/// The part of `s` between two byte offsets that are boundaries.
pub open spec fn byte_slice(s: Seq<char>, from: int, to: int) -> Seq<char> {
    s.subrange(char_pos(s, from), char_pos(s, to))
}

/// The character position of byte offset `offset`, when it is a boundary.
pub fn find_char_pos(cs: &Vec<char>, offset: usize) -> (r: Option<usize>)
    ensures
        match r {
            Some(i) => at_byte(cs@, i as int, offset as int) && char_pos(cs@, offset as int) == i,
            None => !is_boundary(cs@, offset as int),
        },
{
    let mut i: usize = 0;
    let mut at: usize = 0;
    assert(cs@.take(0) == Seq::<char>::empty());
    while i < cs.len() && at < offset
        invariant
            i <= cs.len(),
            at == byte_len(cs@.take(i as int)),
            i > 0 ==> byte_len(cs@.take(i as int - 1)) < offset,
        decreases cs.len() - i,
    {
        let w: usize = width_of(cs[i]);
        assert(cs@.take(i as int + 1).drop_last() == cs@.take(i as int));
        if offset - at < w {
            assert forall|k: int| !at_byte(cs@, k, offset as int) by {
                if at_byte(cs@, k, offset as int) {
                    if k <= i {
                        lemma_byte_len_prefix(cs@, k, i as int);
                    } else {
                        lemma_byte_len_prefix(cs@, i as int + 1, k);
                    }
                }
            }
            return None;
        }
        at = at + w;
        i += 1;
    }
    if at == offset {
        proof {
            lemma_char_pos(cs@, i as int, offset as int);
        }
        Some(i)
    } else {
        assert forall|k: int| !at_byte(cs@, k, offset as int) by {
            if at_byte(cs@, k, offset as int) {
                if at > offset {
                    if k < i {
                        lemma_byte_len_prefix(cs@, k, i as int - 1);
                    } else {
                        lemma_byte_len_prefix(cs@, i as int, k);
                    }
                } else {
                    lemma_byte_len_prefix(cs@, k, i as int);
                }
            }
        }
        None
    }
}

/// The byte offset of every character position of a text, its end included.
pub open spec fn is_byte_table(table: Seq<usize>, s: Seq<char>) -> bool {
    &&& table.len() == s.len() + 1
    &&& forall|i: int| 0 <= i <= s.len() ==> #[trigger] table[i] == byte_len(s.take(i))
}

/// The byte offset of every character position of `cs`, its end included.
pub fn byte_table(cs: &Vec<char>) -> (r: Vec<usize>)
    requires
        byte_len(cs@) <= usize::MAX,
    ensures
        is_byte_table(r@, cs@),
{
    let mut table: Vec<usize> = Vec::new();
    let mut at: usize = 0;
    let mut i: usize = 0;
    assert(cs@.take(0) == Seq::<char>::empty());
    table.push(0);
    while i < cs.len()
        invariant
            i <= cs.len(),
            byte_len(cs@) <= usize::MAX,
            table@.len() == i + 1,
            at == byte_len(cs@.take(i as int)),
            forall|k: int| 0 <= k <= i ==> #[trigger] table@[k] == byte_len(cs@.take(k)),
        decreases cs.len() - i,
    {
        proof {
            assert(cs@.take(i as int + 1).drop_last() == cs@.take(i as int));
            lemma_byte_len_prefix(cs@, i as int, i as int + 1);
        }
        at = at + width_of(cs[i]);
        table.push(at);
        i += 1;
    }
    table
}

/// The character position of byte offset `offset`, when it is a boundary of
/// the text that `table` belongs to.
pub fn table_pos(table: &Vec<usize>, cs: &Vec<char>, offset: usize) -> (r: Option<usize>)
    requires
        is_byte_table(table@, cs@),
    ensures
        match r {
            Some(i) => at_byte(cs@, i as int, offset as int) && char_pos(cs@, offset as int) == i,
            None => !is_boundary(cs@, offset as int),
        },
{
    let mut lo: usize = 0;
    let mut hi: usize = table.len();
    while lo < hi
        invariant
            lo <= hi <= table.len(),
            is_byte_table(table@, cs@),
            forall|k: int| 0 <= k < lo ==> #[trigger] table@[k] < offset,
            forall|k: int| hi <= k < table@.len() ==> #[trigger] table@[k] >= offset,
        decreases hi - lo,
    {
        let mid: usize = lo + (hi - lo) / 2;
        if table[mid] < offset {
            assert forall|k: int| 0 <= k < mid + 1 implies #[trigger] table@[k] < offset by {
                lemma_byte_len_prefix(cs@, k, mid as int);
            }
            lo = mid + 1;
        } else {
            assert forall|k: int| mid <= k < table@.len() implies #[trigger] table@[k] >= offset by {
                lemma_byte_len_prefix(cs@, mid as int, k);
            }
            hi = mid;
        }
    }
    if lo < table.len() && table[lo] == offset {
        proof {
            lemma_char_pos(cs@, lo as int, offset as int);
        }
        Some(lo)
    } else {
        assert forall|k: int| !at_byte(cs@, k, offset as int) by {
            if at_byte(cs@, k, offset as int) {
                assert(table@[k] == offset);
                if k > lo {
                    lemma_byte_len_prefix(cs@, lo as int, k);
                    assert(table@[lo as int] >= offset);
                }
            }
        }
        None
    }
}

/// The byte length of a character vector that was read from a string.
pub fn chars_bytes(cs: &Vec<char>) -> (r: usize)
    requires
        byte_len(cs@) <= usize::MAX,
    ensures
        r == byte_len(cs@),
{
    let mut i: usize = 0;
    let mut at: usize = 0;
    assert(cs@.take(0) == Seq::<char>::empty());
    while i < cs.len()
        invariant
            i <= cs.len(),
            at == byte_len(cs@.take(i as int)),
            byte_len(cs@) <= usize::MAX,
        decreases cs.len() - i,
    {
        proof {
            assert(cs@.take(i as int + 1).drop_last() == cs@.take(i as int));
            lemma_byte_len_prefix(cs@, i as int, i as int + 1);
        }
        at = at + width_of(cs[i]);
        i += 1;
    }
    assert(cs@.take(cs.len() as int) == cs@);
    at
}

/// How many characters of `s`, from the first on, fit in `n` bytes, given
/// that the first `i` do.
pub open spec fn fitting(s: Seq<char>, n: int, i: int) -> int
    decreases s.len() - i,
{
    if i < 0 || i >= s.len() {
        s.len() as int
    } else if byte_len(s.take(i + 1)) <= n {
        fitting(s, n, i + 1)
    } else {
        i
    }
}

/// The longest beginning of `s` that fits in `n` bytes.
pub open spec fn cut_to(s: Seq<char>, n: int) -> Seq<char> {
    s.take(fitting(s, n, 0))
}

/// A text that does not fit in `n` bytes is cut to a beginning that does and
/// that the next character would not fit behind; one that fits stays.
pub proof fn law_cuts_fit(s: Seq<char>, n: int)
    requires
        0 <= n,
    ensures
        byte_len(s) <= n ==> cut_to(s, n) == s,
        byte_len(s) > n ==> exists|k: int|
            {
                &&& 0 <= k < s.len()
                &&& cut_to(s, n) == #[trigger] s.take(k)
                &&& byte_len(s.take(k)) <= n
                &&& byte_len(s.take(k + 1)) > n
            },
{
    assert(s.take(0) == Seq::<char>::empty());
    lemma_fitting_is(s, n, 0);
    let k = fitting(s, n, 0);
    assert(s.take(s.len() as int) == s);
    if byte_len(s) <= n && k < s.len() {
        lemma_byte_len_prefix(s, k + 1, s.len() as int);
    }
}

proof fn lemma_fitting_is(s: Seq<char>, n: int, i: int)
    requires
        0 <= i <= s.len(),
        byte_len(s.take(i)) <= n,
    ensures
        i <= fitting(s, n, i) <= s.len(),
        byte_len(s.take(fitting(s, n, i))) <= n,
        fitting(s, n, i) < s.len() ==> byte_len(s.take(fitting(s, n, i) + 1)) > n,
    decreases s.len() - i,
{
    if i < s.len() && byte_len(s.take(i + 1)) <= n {
        lemma_fitting_is(s, n, i + 1);
    }
}

/// A text cut at a character boundary has exactly the bytes before it.
pub proof fn law_cut_at_boundary(s: Seq<char>, n: int)
    requires
        is_boundary(s, n),
    ensures
        byte_len(cut_to(s, n)) == n,
        at_byte(s, fitting(s, n, 0), n),
{
    let i = choose|i: int| at_byte(s, i, n);
    assert(s.take(0) == Seq::<char>::empty());
    lemma_fitting(s, n, 0, i);
}

proof fn lemma_fitting(s: Seq<char>, n: int, k: int, i: int)
    requires
        0 <= k <= i <= s.len(),
        at_byte(s, i, n),
    ensures
        fitting(s, n, k) == i,
    decreases i - k,
{
    if k < i {
        lemma_byte_len_prefix(s, k + 1, i);
        lemma_fitting(s, n, k + 1, i);
    } else if k < s.len() {
        lemma_byte_len_prefix(s, k, k + 1);
    }
}

/// The longest beginning of `cs` that fits in `n` bytes.
pub fn cut_chars(cs: &Vec<char>, n: usize) -> (r: Vec<char>)
    ensures
        r@ == cut_to(cs@, n as int),
{
    let mut i: usize = 0;
    let mut left: usize = n;
    assert(cs@.take(0) == Seq::<char>::empty());
    while i < cs.len() && width_of(cs[i]) <= left
        invariant
            i <= cs.len(),
            byte_len(cs@.take(i as int)) + left == n,
            fitting(cs@, n as int, 0) == fitting(cs@, n as int, i as int),
        decreases cs.len() - i,
    {
        proof {
            assert(cs@.take(i + 1).drop_last() == cs@.take(i as int));
        }
        left -= width_of(cs[i]);
        i += 1;
    }
    proof {
        if i < cs.len() {
            assert(cs@.take(i + 1).drop_last() == cs@.take(i as int));
        }
        assert(cs@.subrange(0, i as int) == cs@.take(i as int));
    }
    slice_of(cs, 0, i)
}

// ---------------------------------------------------------------------------
// Whitespace
// ---------------------------------------------------------------------------

/// Whether `c` has the Unicode `White_Space` property.
pub open spec fn is_white(c: char) -> bool {
    let n = c as u32;
    ||| 0x09 <= n <= 0x0D
    ||| n == 0x20
    ||| n == 0x85
    ||| n == 0xA0
    ||| n == 0x1680
    ||| 0x2000 <= n <= 0x200A
    ||| n == 0x2028
    ||| n == 0x2029
    ||| n == 0x202F
    ||| n == 0x205F
    ||| n == 0x3000
}

/// Whether `c` has the Unicode `White_Space` property.
pub fn is_whitespace(c: char) -> (r: bool)
    ensures
        r == is_white(c),
{
    let n: u32 = c as u32;
    (0x09 <= n && n <= 0x0D) || n == 0x20 || n == 0x85 || n == 0xA0 || n == 0x1680 || (0x2000 <= n
        && n <= 0x200A) || n == 0x2028 || n == 0x2029 || n == 0x202F || n == 0x205F || n == 0x3000
}

/// Whether a text consists of whitespace only.
pub open spec fn is_blank(s: Seq<char>) -> bool {
    forall|i: int| 0 <= i < s.len() ==> is_white(#[trigger] s[i])
}

/// Whether `cs` consists of whitespace only.
pub fn blank(cs: &Vec<char>) -> (r: bool)
    ensures
        r == is_blank(cs@),
{
    let mut i: usize = 0;
    while i < cs.len()
        invariant
            i <= cs.len(),
            forall|k: int| 0 <= k < i ==> is_white(#[trigger] cs@[k]),
        decreases cs.len() - i,
    {
        if !is_whitespace(cs[i]) {
            assert(!is_white(cs@[i as int]));
            return false;
        }
        i += 1;
    }
    true
}

/// Among the ASCII characters the whitespace ones are the space and the
/// control characters from the tab to the carriage return.
pub proof fn law_ascii_whitespace(c: char)
    requires
        (c as u32) < 0x80,
    ensures
        is_white(c) <==> c == ' ' || c == '\t' || c == '\n' || c == '\r' || c as u32 == 0x0B
            || c as u32 == 0x0C,
{
}

/// A text without its leading whitespace.
pub open spec fn trim_left(s: Seq<char>) -> Seq<char>
    decreases s.len(),
{
    if s.len() > 0 && is_white(s[0]) {
        trim_left(s.drop_first())
    } else {
        s
    }
}

/// A text without its trailing whitespace.
pub open spec fn trim_right(s: Seq<char>) -> Seq<char>
    decreases s.len(),
{
    if s.len() > 0 && is_white(s.last()) {
        trim_right(s.drop_last())
    } else {
        s
    }
}

/// A text without its leading and trailing whitespace.
pub open spec fn trim_both(s: Seq<char>) -> Seq<char> {
    trim_right(trim_left(s))
}

/// What remains after dropping leading whitespace is a suffix.
pub proof fn lemma_trim_left(s: Seq<char>, i: int)
    requires
        0 <= i <= s.len(),
        forall|k: int| 0 <= k < i ==> is_white(#[trigger] s[k]),
        i < s.len() ==> !is_white(s[i]),
    ensures
        trim_left(s) == s.skip(i),
    decreases i,
{
    if i == 0 {
        assert(s.skip(0) == s);
    } else {
        assert(is_white(s[0]));
        assert(s.drop_first().skip(i - 1) == s.skip(i));
        assert forall|k: int| 0 <= k < i - 1 implies is_white(#[trigger] s.drop_first()[k]) by {
            assert(is_white(s[k + 1]));
        }
        lemma_trim_left(s.drop_first(), i - 1);
    }
}

/// What remains after dropping trailing whitespace is a prefix.
pub proof fn lemma_trim_right(s: Seq<char>, i: int)
    requires
        0 <= i <= s.len(),
        forall|k: int| i <= k < s.len() ==> is_white(#[trigger] s[k]),
        i > 0 ==> !is_white(s[i - 1]),
    ensures
        trim_right(s) == s.take(i),
    decreases s.len() - i,
{
    if i == s.len() {
        assert(s.take(i) == s);
    } else {
        assert(is_white(s[s.len() - 1]));
        assert(s.drop_last().take(i) == s.take(i));
        assert forall|k: int| i <= k < s.len() - 1 implies is_white(#[trigger] s.drop_last()[k]) by {
            assert(is_white(s[k]));
        }
        lemma_trim_right(s.drop_last(), i);
    }
}

/// The characters of `cs` after its leading whitespace.
pub fn trim_start_chars(cs: &Vec<char>) -> (r: Vec<char>)
    ensures
        r@ == trim_left(cs@),
{
    let mut i: usize = 0;
    while i < cs.len() && is_whitespace(cs[i])
        invariant
            i <= cs.len(),
            forall|k: int| 0 <= k < i ==> is_white(#[trigger] cs@[k]),
        decreases cs.len() - i,
    {
        i += 1;
    }
    proof {
        lemma_trim_left(cs@, i as int);
        assert(cs@.subrange(i as int, cs.len() as int) == cs@.skip(i as int));
    }
    slice_of(cs, i, cs.len())
}

/// The characters of `cs` before its trailing whitespace.
pub fn trim_end_chars(cs: &Vec<char>) -> (r: Vec<char>)
    ensures
        r@ == trim_right(cs@),
{
    let mut i: usize = cs.len();
    while i > 0 && is_whitespace(cs[i - 1])
        invariant
            i <= cs.len(),
            forall|k: int| i <= k < cs.len() ==> is_white(#[trigger] cs@[k]),
        decreases i,
    {
        i -= 1;
    }
    proof {
        lemma_trim_right(cs@, i as int);
        assert(cs@.subrange(0, i as int) == cs@.take(i as int));
    }
    slice_of(cs, 0, i)
}

/// The characters of `cs` without leading and trailing whitespace.
pub fn trim_chars(cs: &Vec<char>) -> (r: Vec<char>)
    ensures
        r@ == trim_both(cs@),
{
    let left = trim_start_chars(cs);
    trim_end_chars(&left)
}

/// Shape of the trimmed text: whitespace around, and nothing to trim inside.
pub proof fn lemma_trim_both_shape(s: Seq<char>) -> (r: (int, int))
    ensures
        0 <= r.0 <= r.1 <= s.len(),
        trim_both(s) == s.subrange(r.0, r.1),
        is_blank(s.take(r.0)),
        is_blank(s.skip(r.1)),
        r.0 < r.1 ==> !is_white(s[r.0]) && !is_white(s[r.1 - 1]),
        r.0 == r.1 ==> is_blank(s),
{
    let i = lemma_first_ink(s);
    lemma_trim_left(s, i);
    let left = s.skip(i);
    let j = lemma_last_ink(left);
    lemma_trim_right(left, j);
    assert(left.take(j) == s.subrange(i, i + j));
    assert forall|k: int| 0 <= k < s.take(i).len() implies is_white(#[trigger] s.take(i)[k]) by {
        assert(is_white(s[k]));
    }
    assert forall|k: int| 0 <= k < s.skip(i + j).len() implies is_white(
        #[trigger] s.skip(i + j)[k],
    ) by {
        assert(is_white(left[j + k]));
    }
    if j == 0 {
        assert forall|k: int| 0 <= k < s.len() implies is_white(#[trigger] s[k]) by {
            if k >= i {
                assert(is_white(left[k - i]));
            }
        }
    } else {
        assert(left[j - 1] == s[i + j - 1]);
        if is_white(s[i]) {
            assert(i < s.len());
        }
    }
    (i, i + j)
}

/// The position of the first character that is not whitespace.
pub proof fn lemma_first_ink(s: Seq<char>) -> (i: int)
    ensures
        0 <= i <= s.len(),
        forall|k: int| 0 <= k < i ==> is_white(#[trigger] s[k]),
        i < s.len() ==> !is_white(s[i]),
    decreases s.len(),
{
    if s.len() > 0 && is_white(s[0]) {
        let j = lemma_first_ink(s.drop_first());
        assert forall|k: int| 0 <= k < j + 1 implies is_white(#[trigger] s[k]) by {
            if k > 0 {
                assert(is_white(s.drop_first()[k - 1]));
            }
        }
        j + 1
    } else {
        0
    }
}

/// The position after the last character that is not whitespace.
pub proof fn lemma_last_ink(s: Seq<char>) -> (i: int)
    ensures
        0 <= i <= s.len(),
        forall|k: int| i <= k < s.len() ==> is_white(#[trigger] s[k]),
        i > 0 ==> !is_white(s[i - 1]),
    decreases s.len(),
{
    if s.len() > 0 && is_white(s.last()) {
        let j = lemma_last_ink(s.drop_last());
        assert forall|k: int| j <= k < s.len() implies is_white(#[trigger] s[k]) by {
            if k < s.len() - 1 {
                assert(is_white(s.drop_last()[k]));
            }
        }
        j
    } else {
        s.len() as int
    }
}

/// The position of the first whitespace at or after `i`, or the end.
pub open spec fn white_from(s: Seq<char>, i: int) -> int
    decreases s.len() - i,
{
    if i < 0 || i >= s.len() || is_white(s[i]) {
        i
    } else {
        white_from(s, i + 1)
    }
}

/// The words of the part of `s` that starts at `i`: the maximal parts without
/// whitespace.
pub open spec fn words_from(s: Seq<char>, i: int) -> Seq<Seq<char>>
    decreases s.len() - i,
    via words_from_decreases
{
    if i < 0 || i >= s.len() {
        Seq::empty()
    } else if is_white(s[i]) {
        words_from(s, i + 1)
    } else {
        seq![s.subrange(i, white_from(s, i))] + words_from(s, white_from(s, i))
    }
}

#[via_fn]
proof fn words_from_decreases(s: Seq<char>, i: int) {
    lemma_white_from(s, i);
}

proof fn lemma_white_from(s: Seq<char>, i: int)
    ensures
        0 <= i <= s.len() ==> i <= white_from(s, i) <= s.len(),
        0 <= i < s.len() && !is_white(s[i]) ==> i < white_from(s, i),
    decreases s.len() - i,
{
    if 0 <= i < s.len() && !is_white(s[i]) {
        lemma_white_from(s, i + 1);
    }
}

/// A text without whitespace is one word, and no word when it is empty.
pub proof fn law_a_word_is_one_word(w: Seq<char>)
    requires
        forall|k: int| 0 <= k < w.len() ==> !is_white(#[trigger] w[k]),
    ensures
        w.len() > 0 ==> words_from(w, 0) == seq![w],
        w.len() == 0 ==> words_from(w, 0) == Seq::<Seq<char>>::empty(),
{
    if w.len() > 0 {
        lemma_white_end(w, 0);
        assert(w.subrange(0, w.len() as int) == w);
        assert(words_from(w, w.len() as int) == Seq::<Seq<char>>::empty());
        assert(seq![w] + Seq::<Seq<char>>::empty() == seq![w]);
    }
}

proof fn lemma_white_end(w: Seq<char>, i: int)
    requires
        0 <= i <= w.len(),
        forall|k: int| 0 <= k < w.len() ==> !is_white(#[trigger] w[k]),
    ensures
        white_from(w, i) == w.len(),
    decreases w.len() - i,
{
    if i < w.len() {
        lemma_white_end(w, i + 1);
    }
}

/// The words of two texts with whitespace between them are the words of the
/// one and then those of the other.
pub proof fn law_words_are_split_at_whitespace(a: Seq<char>, c: char, b: Seq<char>)
    requires
        is_white(c),
    ensures
        words_from(a + seq![c] + b, 0) == words_from(a, 0) + words_from(b, 0),
{
    lemma_words_concat(a, c, b, 0);
}

proof fn lemma_words_concat(a: Seq<char>, c: char, b: Seq<char>, i: int)
    requires
        is_white(c),
        0 <= i <= a.len(),
    ensures
        words_from(a + seq![c] + b, i) == words_from(a, i) + words_from(b, 0),
    decreases a.len() - i,
{
    let s = a + seq![c] + b;
    let tail = words_from(b, 0);
    if i == a.len() {
        assert(s[i] == c);
        lemma_words_shift(a + seq![c], b, 0);
        assert(words_from(s, i) == words_from(s, i + 1));
        assert(words_from(a, i) + tail == tail);
    } else {
        assert(s[i] == a[i]);
        if is_white(a[i]) {
            lemma_words_concat(a, c, b, i + 1);
        } else {
            lemma_white_from(a, i);
            lemma_white_before(a, c, b, i);
            let n = white_from(a, i);
            assert(s.subrange(i, n) == a.subrange(i, n));
            lemma_words_concat(a, c, b, n);
            let one = seq![a.subrange(i, n)];
            assert(one + (words_from(a, n) + tail) == one + words_from(a, n) + tail);
        }
    }
}

proof fn lemma_white_before(a: Seq<char>, c: char, b: Seq<char>, i: int)
    requires
        is_white(c),
        0 <= i <= a.len(),
    ensures
        white_from(a + seq![c] + b, i) == white_from(a, i),
    decreases a.len() - i,
{
    let s = a + seq![c] + b;
    if i < a.len() {
        assert(s[i] == a[i]);
        if !is_white(a[i]) {
            lemma_white_before(a, c, b, i + 1);
        }
    } else {
        assert(s[i] == c);
    }
}

proof fn lemma_words_shift(a: Seq<char>, b: Seq<char>, i: int)
    requires
        0 <= i <= b.len(),
    ensures
        words_from(a + b, a.len() + i) == words_from(b, i),
    decreases b.len() - i,
{
    let s = a + b;
    let m = a.len() as int;
    if i < b.len() {
        assert(s[m + i] == b[i]);
        if is_white(b[i]) {
            lemma_words_shift(a, b, i + 1);
        } else {
            lemma_white_from(b, i);
            lemma_white_shift(a, b, i);
            let n = white_from(b, i);
            assert(s.subrange(m + i, m + n) == b.subrange(i, n));
            lemma_words_shift(a, b, n);
        }
    }
}

proof fn lemma_white_shift(a: Seq<char>, b: Seq<char>, i: int)
    requires
        0 <= i <= b.len(),
    ensures
        white_from(a + b, a.len() + i) == a.len() + white_from(b, i),
    decreases b.len() - i,
{
    if i < b.len() {
        assert((a + b)[a.len() + i] == b[i]);
        if !is_white(b[i]) {
            lemma_white_shift(a, b, i + 1);
        }
    }
}

/// The words of `s`: its maximal parts without whitespace.
pub fn split_words(s: &str) -> (r: Vec<String>)
    ensures
        texts(r@) == words_from(s@, 0),
{
    let cs = chars_of(s);
    let mut out: Vec<String> = Vec::new();
    let mut i: usize = 0;
    assert(texts(out@) + words_from(cs@, 0) == words_from(cs@, 0));
    while i < cs.len()
        invariant
            i <= cs.len(),
            texts(out@) + words_from(cs@, i as int) == words_from(cs@, 0),
        decreases cs.len() - i,
    {
        if is_whitespace(cs[i]) {
            i += 1;
        } else {
            let mut n: usize = i;
            while n < cs.len() && !is_whitespace(cs[n])
                invariant
                    i <= n <= cs.len(),
                    white_from(cs@, i as int) == white_from(cs@, n as int),
                decreases cs.len() - n,
            {
                n += 1;
            }
            proof {
                lemma_white_from(cs@, i as int);
            }
            let word = string_of(&slice_of(&cs, i, n));
            let ghost before = texts(out@);
            out.push(word);
            proof {
                let rest = words_from(cs@, n as int);
                assert(texts(out@) == before.push(word@));
                assert(before + (seq![word@] + rest) == before.push(word@) + rest);
            }
            i = n;
        }
    }
    assert(texts(out@) + Seq::<Seq<char>>::empty() == texts(out@));
    out
}

// ---------------------------------------------------------------------------
// Lines
// ---------------------------------------------------------------------------

/// One line of a text: its content and its terminator (`\n`, `\r\n`, or
/// nothing for an unterminated last line).
pub struct TextLine {
    pub text: Seq<char>,
    pub eol: Seq<char>,
}

/// The position of the first line feed at or after `from`, or the end.
pub open spec fn newline_from(s: Seq<char>, from: int) -> int
    decreases s.len() - from,
{
    if from < 0 || from >= s.len() {
        s.len() as int
    } else if s[from] == '\n' {
        from
    } else {
        newline_from(s, from + 1)
    }
}

/// The line made of `raw` and a line feed: a trailing carriage return
/// belongs to the terminator.
pub open spec fn ended_line(raw: Seq<char>) -> TextLine {
    if raw.len() > 0 && raw.last() == '\r' {
        TextLine { text: raw.drop_last(), eol: seq!['\r', '\n'] }
    } else {
        TextLine { text: raw, eol: seq!['\n'] }
    }
}

/// The lines of the part of `s` that starts at `from`.
pub open spec fn lines_from(s: Seq<char>, from: int) -> Seq<TextLine>
    decreases s.len() - from,
    via lines_from_decreases
{
    if from < 0 || from >= s.len() {
        Seq::empty()
    } else {
        let n = newline_from(s, from);
        if n < s.len() {
            seq![ended_line(s.subrange(from, n))] + lines_from(s, n + 1)
        } else {
            seq![TextLine { text: s.skip(from), eol: Seq::empty() }]
        }
    }
}

#[via_fn]
proof fn lines_from_decreases(s: Seq<char>, from: int) {
    lemma_newline_from(s, from);
}

/// The lines of a text.
pub open spec fn lines_of(s: Seq<char>) -> Seq<TextLine> {
    lines_from(s, 0)
}

/// The first line of a text without its terminator; an empty text has none.
pub open spec fn first_line(s: Seq<char>) -> Option<Seq<char>> {
    if s.len() == 0 {
        None
    } else {
        Some(lines_of(s)[0].text)
    }
}

/// Where [`newline_from`] stops.
pub proof fn lemma_newline_from(s: Seq<char>, from: int)
    ensures
        0 <= from <= s.len() ==> from <= newline_from(s, from) <= s.len(),
        0 <= from ==> forall|k: int| from <= k < newline_from(s, from) ==> s[k] != '\n',
        0 <= from && newline_from(s, from) < s.len() ==> s[newline_from(s, from)] == '\n',
    decreases s.len() - from,
{
    if 0 <= from < s.len() && s[from] != '\n' {
        lemma_newline_from(s, from + 1);
    }
}

/// [`newline_from`] is the first line feed.
pub proof fn lemma_newline_is(s: Seq<char>, from: int, n: int)
    requires
        0 <= from <= n <= s.len(),
        forall|k: int| from <= k < n ==> s[k] != '\n',
        n < s.len() ==> s[n] == '\n',
    ensures
        newline_from(s, from) == n,
    decreases n - from,
{
    if from < n {
        lemma_newline_is(s, from + 1, n);
    }
}

/// The text made of a list of lines.
pub open spec fn join_lines(ls: Seq<TextLine>) -> Seq<char>
    decreases ls.len(),
{
    if ls.len() == 0 {
        Seq::empty()
    } else {
        join_lines(ls.drop_last()) + ls.last().text + ls.last().eol
    }
}

/// Joining distributes over concatenation.
pub proof fn lemma_join_concat(a: Seq<TextLine>, b: Seq<TextLine>)
    ensures
        join_lines(a + b) == join_lines(a) + join_lines(b),
    decreases b.len(),
{
    if b.len() == 0 {
        assert(a + b == a);
        assert(join_lines(a) + join_lines(b) == join_lines(a));
    } else {
        assert((a + b).drop_last() == a + b.drop_last());
        lemma_join_concat(a, b.drop_last());
        assert(join_lines(a + b) == join_lines(a) + join_lines(b));
    }
}

/// Joining a single line.
pub proof fn lemma_join_one(l: TextLine)
    ensures
        join_lines(seq![l]) == l.text + l.eol,
{
    reveal_with_fuel(join_lines, 2);
    assert(seq![l].drop_last() == Seq::<TextLine>::empty());
    assert(join_lines(seq![l]) == l.text + l.eol);
}

/// Joining the lines of a text gives the text back.
pub proof fn lemma_lines_join(s: Seq<char>, from: int)
    requires
        0 <= from <= s.len(),
    ensures
        join_lines(lines_from(s, from)) == s.skip(from),
    decreases s.len() - from,
{
    if from == s.len() {
        assert(s.skip(from) == Seq::<char>::empty());
    } else {
        lemma_newline_from(s, from);
        let n = newline_from(s, from);
        if n < s.len() {
            let head = ended_line(s.subrange(from, n));
            lemma_lines_join(s, n + 1);
            lemma_join_concat(seq![head], lines_from(s, n + 1));
            lemma_join_one(head);
            assert(head.text + head.eol == s.subrange(from, n + 1));
            assert(s.subrange(from, n + 1) + s.skip(n + 1) == s.skip(from));
        } else {
            lemma_join_one(TextLine { text: s.skip(from), eol: Seq::empty() });
            assert(s.skip(from) + Seq::<char>::empty() == s.skip(from));
        }
    }
}

/// The character position where line `k` starts in the text made of `ls`.
pub open spec fn line_start(ls: Seq<TextLine>, k: int) -> int {
    join_lines(ls.take(k)).len() as int
}

/// A line starts where the line before it, terminator included, ends.
pub proof fn lemma_line_start_step(ls: Seq<TextLine>, k: int)
    requires
        0 <= k < ls.len(),
    ensures
        join_lines(ls.take(k + 1)) == join_lines(ls.take(k)) + ls[k].text + ls[k].eol,
        line_start(ls, k + 1) == line_start(ls, k) + ls[k].text.len() + ls[k].eol.len(),
{
    assert(ls.take(k + 1).drop_last() == ls.take(k));
}

/// A line after the first starts behind a line feed, and a line holds none
/// but at its end.
pub proof fn lemma_lines_newlines(s: Seq<char>, from: int, k: int)
    requires
        0 <= from <= s.len(),
        0 <= k < lines_from(s, from).len(),
    ensures
        ({
            let p = from + line_start(lines_from(s, from), k);
            let q = from + line_start(lines_from(s, from), k + 1);
            &&& k > 0 ==> s[p - 1] == '\n'
            &&& forall|x: int| p <= x < q - 1 ==> s[x] != '\n'
        }),
    decreases k,
{
    let ls = lines_from(s, from);
    let n = newline_from(s, from);
    lemma_newline_from(s, from);
    assert(ls.take(0) == Seq::<TextLine>::empty());
    lemma_line_start_step(ls, 0);
    if k > 0 {
        let rest = lines_from(s, n + 1);
        assert(ls == seq![ls[0]] + rest);
        lemma_lines_newlines(s, n + 1, k - 1);
        assert(ls.take(k) == seq![ls[0]] + rest.take(k - 1));
        assert(ls.take(k + 1) == seq![ls[0]] + rest.take(k));
        lemma_join_concat(seq![ls[0]], rest.take(k - 1));
        lemma_join_concat(seq![ls[0]], rest.take(k));
        lemma_join_one(ls[0]);
        if k == 1 {
            assert(rest.take(0) == Seq::<TextLine>::empty());
        }
    }
}

/// Where a line lies in the text made of `ls`.
pub proof fn lemma_line_extent(ls: Seq<TextLine>, k: int)
    requires
        0 <= k < ls.len(),
    ensures
        line_start(ls, k) + ls[k].text.len() + ls[k].eol.len() <= join_lines(ls).len(),
        join_lines(ls).take(line_start(ls, k)) == join_lines(ls.take(k)),
        join_lines(ls).subrange(line_start(ls, k), line_start(ls, k) + ls[k].text.len())
            == ls[k].text,
        join_lines(ls).subrange(
            line_start(ls, k) + ls[k].text.len() as int,
            line_start(ls, k + 1),
        ) == ls[k].eol,
        join_lines(ls).skip(line_start(ls, k + 1)) == join_lines(ls.skip(k + 1)),
{
    lemma_line_start_step(ls, k);
    assert(ls.take(k + 1) + ls.skip(k + 1) == ls);
    lemma_join_concat(ls.take(k + 1), ls.skip(k + 1));
    let s = join_lines(ls);
    let head = join_lines(ls.take(k));
    assert(s == head + ls[k].text + ls[k].eol + join_lines(ls.skip(k + 1)));
    assert(s.take(head.len() as int) == head);
    assert(s.subrange(head.len() as int, (head.len() + ls[k].text.len()) as int) == ls[k].text);
    assert(s.subrange((head.len() + ls[k].text.len()) as int, line_start(ls, k + 1)) == ls[k].eol);
    assert(s.skip(line_start(ls, k + 1)) == join_lines(ls.skip(k + 1)));
}

/// Whether a line of `s` starts at `p`, its text ends at `t`, and its line
/// feed, or the end of `s`, is at `n`. A carriage return before the line feed
/// is not part of the text.
pub open spec fn is_line(s: Seq<char>, p: int, t: int, n: int) -> bool {
    &&& 0 <= p <= n <= s.len()
    &&& p > 0 ==> s[p - 1] == '\n'
    &&& forall|k: int| p <= k < n ==> #[trigger] s[k] != '\n'
    &&& n < s.len() ==> s[n] == '\n'
    &&& t == (if p < n < s.len() && s[n - 1] == '\r' {
        n - 1
    } else {
        n
    })
}

/// Where the line after one whose line feed is at `n` starts.
pub open spec fn past_line(s: Seq<char>, n: int) -> int {
    if n < s.len() {
        n + 1
    } else {
        n
    }
}

/// Which of the lines from `from` on a line is.
pub proof fn lemma_line_number(s: Seq<char>, from: int, p: int, t: int, n: int) -> (k: int)
    requires
        0 <= from <= p < s.len(),
        is_line(s, p, t, n),
    ensures
        ({
            let ls = lines_from(s, from);
            &&& 0 <= k < ls.len()
            &&& from + line_start(ls, k) == p
            &&& ls[k].text == s.subrange(p, t)
            &&& ls[k].eol == s.subrange(t, past_line(s, n))
            &&& from + line_start(ls, k + 1) == past_line(s, n)
        }),
    decreases p - from,
{
    let ls = lines_from(s, from);
    assert(ls.take(0) == Seq::<TextLine>::empty());
    if p == from {
        lemma_newline_is(s, from, n);
        let raw = s.subrange(p, n);
        if n < s.len() {
            assert(ls[0] == ended_line(raw));
            if p < n && s[n - 1] == '\r' {
                assert(raw.drop_last() == s.subrange(p, t));
                assert(s.subrange(t, n + 1) == seq!['\r', '\n']);
            } else {
                assert(p < n ==> raw.last() == s[n - 1]);
                assert(s.subrange(t, n + 1) == seq!['\n']);
            }
        } else {
            assert(s.skip(p) == s.subrange(p, t));
            assert(s.subrange(t, n) == Seq::<char>::empty());
        }
        lemma_line_start_step(ls, 0);
        0
    } else {
        lemma_newline_from(s, from);
        let m = newline_from(s, from);
        assert(m < p) by {
            if m >= p {
                assert(s[p - 1] != '\n');
            }
        }
        let rest = lines_from(s, m + 1);
        let head = ended_line(s.subrange(from, m));
        assert(ls == seq![head] + rest);
        let k = lemma_line_number(s, m + 1, p, t, n);
        assert(ls.take(k + 1) == seq![head] + rest.take(k));
        assert(ls.take(k + 2) == seq![head] + rest.take(k + 1));
        lemma_join_concat(seq![head], rest.take(k));
        lemma_join_concat(seq![head], rest.take(k + 1));
        lemma_join_one(head);
        k + 1
    }
}

/// Lines start one after another.
pub proof fn lemma_line_start_mono(ls: Seq<TextLine>, j: int, k: int)
    requires
        0 <= j <= k <= ls.len(),
    ensures
        line_start(ls, j) <= line_start(ls, k),
    decreases k - j,
{
    if j < k {
        lemma_line_start_mono(ls, j, k - 1);
        lemma_line_start_step(ls, k - 1);
    }
}

/// Every terminator of a text's lines is whitespace.
pub proof fn lemma_lines_eol(s: Seq<char>, from: int)
    requires
        0 <= from <= s.len(),
    ensures
        forall|k: int| 0 <= k < lines_from(s, from).len() ==> is_blank(
            (#[trigger] lines_from(s, from)[k]).eol,
        ),
    decreases s.len() - from,
{
    if from < s.len() {
        lemma_newline_from(s, from);
        let n = newline_from(s, from);
        if n < s.len() {
            lemma_lines_eol(s, n + 1);
            let rest = lines_from(s, n + 1);
            assert forall|k: int| 0 <= k < lines_from(s, from).len() implies is_blank(
                (#[trigger] lines_from(s, from)[k]).eol,
            ) by {
                if k > 0 {
                    assert(lines_from(s, from)[k] == rest[k - 1]);
                }
            }
        }
    }
}

/// A text has no lines exactly when it is empty.
pub proof fn lemma_lines_nonempty(s: Seq<char>)
    ensures
        lines_of(s).len() == 0 <==> s.len() == 0,
{
}

/// One source line: its text, its terminator, and where the line starts in
/// the source, in bytes and in characters.
pub struct LineBuf {
    pub text: Vec<char>,
    pub eol: Vec<char>,
    pub start: usize,
    pub pos: usize,
}

impl LineBuf {
    /// The line as text and terminator.
    pub open spec fn line(self) -> TextLine {
        TextLine { text: self.text@, eol: self.eol@ }
    }
}

/// The lines held by a list of line buffers.
pub open spec fn buf_lines(bufs: Seq<LineBuf>) -> Seq<TextLine> {
    bufs.map_values(|b: LineBuf| b.line())
}

/// The first line of the part of `cs` that starts at `from`, as its text and
/// terminator, and the position after it.
fn cut_line(cs: &Vec<char>, from: usize) -> (r: (Vec<char>, Vec<char>, usize))
    requires
        from < cs.len(),
    ensures
        from < r.2 <= cs.len(),
        lines_from(cs@, from as int) == seq![TextLine { text: r.0@, eol: r.1@ }] + lines_from(
            cs@,
            r.2 as int,
        ),
        r.0@ + r.1@ == cs@.subrange(from as int, r.2 as int),
{
    let mut n: usize = from;
    while n < cs.len() && cs[n] != '\n'
        invariant
            from <= n <= cs.len(),
            forall|k: int| from <= k < n ==> cs@[k] != '\n',
        decreases cs.len() - n,
    {
        n += 1;
    }
    proof {
        lemma_newline_is(cs@, from as int, n as int);
    }
    let mut eol: Vec<char> = Vec::new();
    if n < cs.len() {
        let ghost raw = cs@.subrange(from as int, n as int);
        if n > from && cs[n - 1] == '\r' {
            let text = slice_of(cs, from, n - 1);
            eol.push('\r');
            eol.push('\n');
            assert(raw.drop_last() == text@);
            assert(eol@ == seq!['\r', '\n']);
            assert(text@ + eol@ == cs@.subrange(from as int, n + 1));
            (text, eol, n + 1)
        } else {
            let text = slice_of(cs, from, n);
            eol.push('\n');
            assert(eol@ == seq!['\n']);
            assert(text@ + eol@ == cs@.subrange(from as int, n + 1));
            (text, eol, n + 1)
        }
    } else {
        let text = slice_of(cs, from, n);
        assert(text@ == cs@.skip(from as int));
        assert(eol@ == Seq::<char>::empty());
        assert(lines_from(cs@, from as int) == seq![TextLine { text: text@, eol: eol@ }]
            + Seq::<TextLine>::empty());
        (text, eol, n)
    }
}

/// The first line of a text without its terminator; an empty text has none.
pub fn first_line_chars(cs: &Vec<char>) -> (r: Option<Vec<char>>)
    ensures
        match r {
            Some(line) => first_line(cs@) == Some(line@),
            None => first_line(cs@) is None,
        },
{
    if cs.len() == 0 {
        None
    } else {
        let (line, _, _) = cut_line(cs, 0);
        Some(line)
    }
}

/// Splits a source into lines, keeping each line's terminator and byte
/// offset.
pub fn split_lines(cs: &Vec<char>) -> (r: Vec<LineBuf>)
    requires
        byte_len(cs@) <= usize::MAX,
    ensures
        buf_lines(r@) == lines_of(cs@),
        forall|k: int|
            0 <= k < r.len() ==> (#[trigger] r@[k]).start == byte_len(
                join_lines(lines_of(cs@).take(k)),
            ) && r@[k].pos == line_start(lines_of(cs@), k),
{
    let mut out: Vec<LineBuf> = Vec::new();
    let mut from: usize = 0;
    let mut offset: usize = 0;
    let ghost all = lines_of(cs@);
    assert(cs@.take(0) == Seq::<char>::empty());
    assert(buf_lines(out@) + lines_from(cs@, 0) == all);
    assert(join_lines(buf_lines(out@)) == cs@.take(0));
    while from < cs.len()
        invariant
            from <= cs.len(),
            byte_len(cs@) <= usize::MAX,
            all == lines_of(cs@),
            buf_lines(out@) + lines_from(cs@, from as int) == all,
            join_lines(buf_lines(out@)) == cs@.take(from as int),
            offset == byte_len(cs@.take(from as int)),
            forall|k: int|
                0 <= k < out.len() ==> (#[trigger] out@[k]).start == byte_len(
                    join_lines(all.take(k)),
                ) && out@[k].pos == line_start(all, k),
        decreases cs.len() - from,
    {
        let ghost before = out@;
        let (text, eol, next) = cut_line(cs, from);
        let ghost l = TextLine { text: text@, eol: eol@ };
        proof {
            lemma_byte_len_prefix(cs@, from as int, next as int);
            lemma_byte_len_concat(text@, eol@);
        }
        let piece: usize = chars_bytes(&text) + chars_bytes(&eol);
        out.push(LineBuf { text, eol, start: offset, pos: from });
        proof {
            assert(buf_lines(out@) == buf_lines(before).push(l));
            assert(buf_lines(before).push(l) == buf_lines(before) + seq![l]);
            assert(buf_lines(out@) + lines_from(cs@, next as int) == buf_lines(before) + lines_from(
                cs@,
                from as int,
            ));
            lemma_join_concat(buf_lines(before), seq![l]);
            lemma_join_one(l);
            assert(cs@.take(from as int) + cs@.subrange(from as int, next as int) == cs@.take(
                next as int,
            ));
            assert(all.take(before.len() as int) == buf_lines(before));
        }
        offset = offset + piece;
        from = next;
    }
    assert(buf_lines(out@) + Seq::<TextLine>::empty() == buf_lines(out@));
    out
}

// ---------------------------------------------------------------------------
// Searching
// ---------------------------------------------------------------------------

/// Whether `p` stands in `s` at position `i`.
pub open spec fn occurs_at(s: Seq<char>, p: Seq<char>, i: int) -> bool {
    0 <= i && i + p.len() <= s.len() && s.subrange(i, i + p.len()) == p
}

/// Whether `p` stands anywhere in `s`.
pub open spec fn occurs(s: Seq<char>, p: Seq<char>) -> bool {
    exists|i: int| occurs_at(s, p, i)
}

/// The first position at or after `i` at which `p` stands in `s`.
pub open spec fn find_from(s: Seq<char>, p: Seq<char>, i: int) -> Option<int>
    decreases s.len() + 1 - i,
{
    if i < 0 || i + p.len() > s.len() {
        None
    } else if occurs_at(s, p, i) {
        Some(i)
    } else {
        find_from(s, p, i + 1)
    }
}

/// Whether `s` starts with `p`.
pub open spec fn starts_with(s: Seq<char>, p: Seq<char>) -> bool {
    occurs_at(s, p, 0)
}

/// [`find_from`] finds the first occurrence.
pub proof fn lemma_find_is(s: Seq<char>, p: Seq<char>, i: int, n: int)
    requires
        0 <= i <= n,
        occurs_at(s, p, n),
        forall|k: int| i <= k < n ==> !occurs_at(s, p, k),
    ensures
        find_from(s, p, i) == Some(n),
    decreases n - i,
{
    if i < n {
        assert(!occurs_at(s, p, i));
        lemma_find_is(s, p, i + 1, n);
    }
}

/// What [`find_from`] finds.
pub proof fn lemma_find(s: Seq<char>, p: Seq<char>, i: int)
    requires
        0 <= i,
    ensures
        match find_from(s, p, i) {
            Some(n) => i <= n && occurs_at(s, p, n) && forall|k: int|
                i <= k < n ==> !occurs_at(s, p, k),
            None => forall|k: int| i <= k ==> !occurs_at(s, p, k),
        },
    decreases s.len() + 1 - i,
{
    if i + p.len() <= s.len() && !occurs_at(s, p, i) {
        lemma_find(s, p, i + 1);
    }
}

/// Whether `p` stands in `cs` at position `i`.
pub fn stands_at(cs: &Vec<char>, p: &Vec<char>, i: usize) -> (r: bool)
    requires
        i <= cs.len(),
    ensures
        r == occurs_at(cs@, p@, i as int),
{
    if cs.len() - i < p.len() {
        return false;
    }
    let mut k: usize = 0;
    while k < p.len()
        invariant
            k <= p.len(),
            i + p.len() <= cs.len(),
            forall|j: int| 0 <= j < k ==> cs@[i + j] == p@[j],
        decreases p.len() - k,
    {
        if cs[i + k] != p[k] {
            assert(cs@.subrange(i as int, i + p@.len())[k as int] != p@[k as int]);
            return false;
        }
        k += 1;
    }
    assert(cs@.subrange(i as int, i + p@.len()) == p@);
    true
}

/// The first position at or after `from` at which `p` stands in `cs`.
pub fn find_chars(cs: &Vec<char>, p: &Vec<char>, from: usize) -> (r: Option<usize>)
    requires
        from <= cs.len(),
    ensures
        match r {
            Some(i) => find_from(cs@, p@, from as int) == Some(i as int) && occurs_at(
                cs@,
                p@,
                i as int,
            ) && from <= i && i + p.len() <= cs.len(),
            None => find_from(cs@, p@, from as int) is None,
        },
{
    let mut i: usize = from;
    while p.len() <= cs.len() - i
        invariant
            from <= i <= cs.len(),
            find_from(cs@, p@, from as int) == find_from(cs@, p@, i as int),
        decreases cs.len() - i,
    {
        if stands_at(cs, p, i) {
            return Some(i);
        }
        if i == cs.len() {
            assert(p@.len() == 0);
            assert(cs@.subrange(i as int, i as int) == p@);
            return None;
        }
        i += 1;
    }
    None
}

/// The pieces of the part of `s` that starts at `i` between the separators
/// `c`; there is always at least one.
pub open spec fn pieces_from(s: Seq<char>, c: char, i: int) -> Seq<Seq<char>>
    decreases s.len() - i,
    via pieces_from_decreases
{
    let n = char_from(s, c, i);
    if 0 <= i && n < s.len() {
        seq![s.subrange(i, n)] + pieces_from(s, c, n + 1)
    } else {
        seq![s.subrange(i, n)]
    }
}

#[via_fn]
proof fn pieces_from_decreases(s: Seq<char>, c: char, i: int) {
    lemma_char_from(s, c, i);
}

/// The pieces between separators, with the separators put back, are the text,
/// and none of them holds a separator.
pub proof fn law_pieces_join_back(s: Seq<char>, c: char, i: int)
    requires
        0 <= i <= s.len(),
    ensures
        pieces_from(s, c, i).len() > 0,
        joined_texts(pieces_from(s, c, i), seq![c]) == s.skip(i),
        forall|k: int|
            0 <= k < pieces_from(s, c, i).len() ==> !(#[trigger] pieces_from(s, c, i)[k]).contains(
                c,
            ),
    decreases s.len() - i,
{
    let n = char_from(s, c, i);
    lemma_char_from(s, c, i);
    lemma_char_from_is(s, c, i);
    let head = s.subrange(i, n);
    let all = pieces_from(s, c, i);
    assert(!head.contains(c)) by {
        if head.contains(c) {
            let k = choose|k: int| 0 <= k < head.len() && head[k] == c;
            assert(s[i + k] != c);
        }
    }
    if n < s.len() {
        let rest = pieces_from(s, c, n + 1);
        law_pieces_join_back(s, c, n + 1);
        lemma_joined_texts_first(head, rest, seq![c]);
        assert(head + seq![c] + s.skip(n + 1) == s.skip(i));
        assert forall|k: int| 0 <= k < all.len() implies !(#[trigger] all[k]).contains(c) by {
            if k > 0 {
                assert(all[k] == rest[k - 1]);
            }
        }
    } else {
        assert(head == s.skip(i));
        assert(all == seq![head]);
    }
}

/// Joining a text and more texts.
proof fn lemma_joined_texts_first(head: Seq<char>, rest: Seq<Seq<char>>, sep: Seq<char>)
    requires
        rest.len() > 0,
    ensures
        joined_texts(seq![head] + rest, sep) == head + sep + joined_texts(rest, sep),
    decreases rest.len(),
{
    let all = seq![head] + rest;
    if rest.len() == 1 {
        assert(all.drop_last() == seq![head]);
        assert(joined_texts(seq![head], sep) == head);
    } else {
        lemma_joined_texts_first(head, rest.drop_last(), sep);
        assert(all.drop_last() == seq![head] + rest.drop_last());
        let low = joined_texts(rest.drop_last(), sep);
        assert(head + sep + low + sep + rest.last() == head + sep + (low + sep + rest.last()));
    }
}

proof fn lemma_char_from_is(s: Seq<char>, c: char, i: int)
    ensures
        0 <= i ==> forall|k: int| i <= k < char_from(s, c, i) ==> #[trigger] s[k] != c,
        0 <= i && char_from(s, c, i) < s.len() ==> s[char_from(s, c, i)] == c,
    decreases s.len() - i,
{
    if 0 <= i < s.len() && s[i] != c {
        lemma_char_from_is(s, c, i + 1);
    }
}

/// The position of the first `c` at or after `i`, or the end.
pub open spec fn char_from(s: Seq<char>, c: char, i: int) -> int
    decreases s.len() - i,
{
    if i < 0 || i >= s.len() {
        s.len() as int
    } else if s[i] == c {
        i
    } else {
        char_from(s, c, i + 1)
    }
}

proof fn lemma_char_from(s: Seq<char>, c: char, i: int)
    ensures
        0 <= i <= s.len() ==> i <= char_from(s, c, i) <= s.len(),
        i > s.len() ==> char_from(s, c, i) == s.len(),
    decreases s.len() - i,
{
    if 0 <= i < s.len() && s[i] != c {
        lemma_char_from(s, c, i + 1);
    }
}

/// The trimmed pieces of `s` between the separators `c`.
pub fn split_trimmed(s: &str, c: char) -> (r: Vec<String>)
    ensures
        texts(r@) == pieces_from(s@, c, 0).map_values(|p: Seq<char>| trim_both(p)),
{
    let cs = chars_of(s);
    let ghost f = |p: Seq<char>| trim_both(p);
    let ghost all = pieces_from(cs@, c, 0).map_values(f);
    let mut out: Vec<String> = Vec::new();
    let mut i: usize = 0;
    let mut more = true;
    assert(texts(out@) + all == all);
    while more
        invariant
            i <= cs.len(),
            f == (|p: Seq<char>| trim_both(p)),
            more ==> texts(out@) + pieces_from(cs@, c, i as int).map_values(f) == all,
            !more ==> texts(out@) == all,
        decreases (if more { cs.len() - i + 1 } else { 0 }),
    {
        let mut n: usize = i;
        while n < cs.len() && cs[n] != c
            invariant
                i <= n <= cs.len(),
                char_from(cs@, c, i as int) == char_from(cs@, c, n as int),
            decreases cs.len() - n,
        {
            n += 1;
        }
        let piece = slice_of(&cs, i, n);
        let entry = string_of(&trim_chars(&piece));
        let ghost before = texts(out@);
        out.push(entry);
        proof {
            assert(texts(out@) == before.push(entry@));
            assert(f(piece@) == entry@);
        }
        if n < cs.len() {
            proof {
                let rest = pieces_from(cs@, c, n + 1);
                assert((seq![piece@] + rest).map_values(f) == seq![entry@] + rest.map_values(f));
                assert(before + (seq![entry@] + rest.map_values(f)) == before.push(entry@)
                    + rest.map_values(f));
            }
            i = n + 1;
        } else {
            proof {
                assert(seq![piece@].map_values(f) == seq![entry@]);
                assert(before + seq![entry@] == before.push(entry@));
            }
            more = false;
        }
    }
    out
}

/// A list of texts with `sep` between them.
pub open spec fn joined_texts(v: Seq<Seq<char>>, sep: Seq<char>) -> Seq<char>
    decreases v.len(),
{
    if v.len() == 0 {
        Seq::empty()
    } else if v.len() == 1 {
        v[0]
    } else {
        joined_texts(v.drop_last(), sep) + sep + v.last()
    }
}

/// A list of strings with `sep` between them.
pub fn join_strings(v: &Vec<String>, sep: &str) -> (r: String)
    ensures
        r@ == joined_texts(texts(v@), sep@),
{
    let ghost all = texts(v@);
    let mut out = String::new();
    let mut i: usize = 0;
    while i < v.len()
        invariant
            i <= v.len(),
            all == texts(v@),
            out@ == joined_texts(all.take(i as int), sep@),
        decreases v.len() - i,
    {
        if i > 0 {
            out.append(sep);
        }
        out.append(v[i].as_str());
        proof {
            assert(all.take(i + 1).drop_last() == all.take(i as int));
            assert(all.take(i + 1).last() == v@[i as int]@);
            if i == 0 {
                assert(Seq::<char>::empty() + v@[0]@ == v@[0]@);
            }
        }
        i += 1;
    }
    assert(all.take(v.len() as int) == all);
    out
}

/// A text with `\n` for every `\r\n`.
pub open spec fn unix_text(s: Seq<char>) -> Seq<char>
    decreases s.len(),
{
    if s.len() == 0 {
        Seq::empty()
    } else if s.len() >= 2 && s[0] == '\r' && s[1] == '\n' {
        seq!['\n'] + unix_text(s.skip(2))
    } else {
        seq![s[0]] + unix_text(s.skip(1))
    }
}

/// A text with `\r\n` for every `\n`.
pub open spec fn crlf_text(s: Seq<char>) -> Seq<char>
    decreases s.len(),
{
    if s.len() == 0 {
        Seq::empty()
    } else if s[0] == '\n' {
        seq!['\r', '\n'] + crlf_text(s.skip(1))
    } else {
        seq![s[0]] + crlf_text(s.skip(1))
    }
}

/// [`unix_text`] undoes [`crlf_text`].
pub proof fn lemma_crlf_undone(s: Seq<char>)
    ensures
        unix_text(crlf_text(s)) == s,
        s.len() > 0 ==> crlf_text(s).len() > 0 && crlf_text(s)[0] != '\n',
    decreases s.len(),
{
    if s.len() > 0 {
        let rest = s.skip(1);
        lemma_crlf_undone(rest);
        let c = crlf_text(s);
        if s[0] == '\n' {
            assert(c.skip(2) == crlf_text(rest));
            assert(seq!['\n'] + rest == s);
        } else {
            assert(c.skip(1) == crlf_text(rest));
            assert(c.len() >= 2 ==> c[1] == crlf_text(rest)[0]);
            assert(seq![s[0]] + rest == s);
        }
    }
}

/// A text with `\n` for every `\r\n`.
pub fn unix_chars(cs: &Vec<char>) -> (r: Vec<char>)
    ensures
        r@ == unix_text(cs@),
{
    let mut out: Vec<char> = Vec::new();
    let mut i: usize = 0;
    assert(cs@.skip(0) == cs@);
    assert(out@ + unix_text(cs@.skip(0)) == unix_text(cs@));
    while i < cs.len()
        invariant
            i <= cs.len(),
            out@ + unix_text(cs@.skip(i as int)) == unix_text(cs@),
        decreases cs.len() - i,
    {
        let ghost rest = cs@.skip(i as int);
        let ghost done = out@;
        if cs[i] == '\r' && i + 1 < cs.len() && cs[i + 1] == '\n' {
            out.push('\n');
            proof {
                assert(rest[0] == '\r' && rest[1] == '\n');
                assert(rest.skip(2) == cs@.skip(i + 2));
                assert(done + (seq!['\n'] + unix_text(rest.skip(2))) == out@ + unix_text(
                    rest.skip(2),
                ));
            }
            i += 2;
        } else {
            out.push(cs[i]);
            proof {
                assert(rest[0] == cs@[i as int]);
                assert(rest.len() >= 2 ==> rest[1] == cs@[i + 1]);
                assert(rest.skip(1) == cs@.skip(i + 1));
                assert(done + (seq![rest[0]] + unix_text(rest.skip(1))) == out@ + unix_text(
                    rest.skip(1),
                ));
            }
            i += 1;
        }
    }
    assert(out@ + Seq::<char>::empty() == out@);
    out
}

/// Whether a text holds no `\r\n`.
pub open spec fn no_crlf(s: Seq<char>) -> bool {
    forall|i: int| 0 <= i < s.len() - 1 && #[trigger] s[i] == '\r' ==> s[i + 1] != '\n'
}

/// Texts without `\r\n` stay so when joined, unless the joint makes one.
pub proof fn lemma_no_crlf_concat(a: Seq<char>, b: Seq<char>)
    requires
        no_crlf(a),
        no_crlf(b),
        a.len() == 0 || b.len() == 0 || a.last() != '\r' || b[0] != '\n',
    ensures
        no_crlf(a + b),
{
    let s = a + b;
    assert forall|i: int| 0 <= i < s.len() - 1 && #[trigger] s[i] == '\r' implies s[i + 1]
        != '\n' by {
        if i < a.len() - 1 {
            assert(a[i] == '\r');
        } else if i >= a.len() {
            assert(b[i - a.len()] == '\r');
        }
    }
}

/// Normalizing line ends works part by part where no `\r\n` is cut apart.
pub proof fn lemma_unix_concat(a: Seq<char>, b: Seq<char>)
    requires
        a.len() == 0 || b.len() == 0 || a.last() != '\r' || b[0] != '\n',
    ensures
        unix_text(a + b) == unix_text(a) + unix_text(b),
    decreases a.len(),
{
    let s = a + b;
    if a.len() == 0 {
        assert(s == b);
        assert(unix_text(a) + unix_text(b) == unix_text(b));
    } else if a.len() >= 2 && a[0] == '\r' && a[1] == '\n' {
        assert(s[0] == '\r' && s[1] == '\n');
        assert(s.skip(2) == a.skip(2) + b);
        assert(a.skip(2).len() > 0 ==> a.skip(2).last() == a.last());
        lemma_unix_concat(a.skip(2), b);
        assert(unix_text(s) == unix_text(a) + unix_text(b));
    } else {
        assert(s[0] == a[0]);
        assert(s.skip(1) == a.skip(1) + b);
        assert(a.skip(1).len() > 0 ==> a.skip(1).last() == a.last());
        assert(a.len() == 1 ==> a.last() == a[0]);
        assert(s.len() >= 2 && s[0] == '\r' ==> s[1] != '\n');
        lemma_unix_concat(a.skip(1), b);
        assert(unix_text(s) == unix_text(a) + unix_text(b));
    }
}

/// A text without `\r\n` is its own normalization.
pub proof fn lemma_unix_fixed(s: Seq<char>)
    requires
        no_crlf(s),
    ensures
        unix_text(s) == s,
    decreases s.len(),
{
    if s.len() > 0 {
        let t = s.skip(1);
        assert forall|i: int| 0 <= i < t.len() - 1 && #[trigger] t[i] == '\r' implies t[i + 1]
            != '\n' by {
            assert(s[i + 1] == '\r');
        }
        lemma_unix_fixed(t);
        assert(s.len() >= 2 && s[0] == '\r' ==> s[1] != '\n');
        assert(seq![s[0]] + t == s);
    }
}

/// Normalizing line ends keeps a final line feed.
pub proof fn lemma_unix_last(s: Seq<char>)
    requires
        s.len() > 0,
        s.last() == '\n',
    ensures
        unix_text(s).len() > 0,
        unix_text(s).last() == '\n',
    decreases s.len(),
{
    let n: int = if s.len() >= 2 && s[0] == '\r' && s[1] == '\n' {
        2
    } else {
        1
    };
    let rest = unix_text(s.skip(n));
    if s.len() > n {
        assert(s.skip(n).last() == s.last());
        lemma_unix_last(s.skip(n));
        assert((seq!['\n'] + rest).last() == rest.last());
        assert((seq![s[0]] + rest).last() == rest.last());
    } else {
        assert(s.skip(n) == Seq::<char>::empty());
        assert(rest == Seq::<char>::empty());
        assert((seq!['\n'] + rest).last() == '\n');
        assert((seq![s[0]] + rest).last() == s[0]);
    }
}

// ---------------------------------------------------------------------------
// Numbers
// ---------------------------------------------------------------------------

/// The character of a decimal digit.
pub open spec fn digit_char(d: nat) -> char {
    (('0' as u32) + d) as char
}

/// The decimal notation of `n`.
pub open spec fn decimal(n: nat) -> Seq<char>
    decreases n,
{
    if n < 10 {
        seq![digit_char(n)]
    } else {
        decimal(n / 10).push(digit_char(n % 10))
    }
}

/// The number that a text of decimal digits denotes.
pub open spec fn denoted(s: Seq<char>) -> int
    decreases s.len(),
{
    if s.len() == 0 {
        0
    } else {
        10 * denoted(s.drop_last()) + (s.last() as int - '0' as int)
    }
}

/// The decimal notation of a number consists of digits, does not start with
/// a zero unless it is the zero itself, and denotes the number.
pub proof fn law_decimal_notation_denotes_the_number(n: nat)
    ensures
        decimal(n).len() > 0,
        denoted(decimal(n)) == n,
        forall|k: int|
            0 <= k < decimal(n).len() ==> '0' as int <= (#[trigger] decimal(n)[k]) as int
                <= '9' as int,
        n > 0 ==> decimal(n)[0] != '0',
    decreases n,
{
    let s = decimal(n);
    if n < 10 {
        assert(s.drop_last() == Seq::<char>::empty());
        reveal_with_fuel(denoted, 2);
    } else {
        law_decimal_notation_denotes_the_number(n / 10);
        assert(s.drop_last() == decimal(n / 10));
    }
}

/// The character of a decimal digit.
fn digit(d: usize) -> (r: char)
    requires
        d < 10,
    ensures
        r == digit_char(d as nat),
{
    if d == 0 {
        '0'
    } else if d == 1 {
        '1'
    } else if d == 2 {
        '2'
    } else if d == 3 {
        '3'
    } else if d == 4 {
        '4'
    } else if d == 5 {
        '5'
    } else if d == 6 {
        '6'
    } else if d == 7 {
        '7'
    } else if d == 8 {
        '8'
    } else {
        '9'
    }
}

/// The decimal notation of `n`.
pub fn decimal_digits(n: u64) -> (r: Vec<char>)
    ensures
        r@ == decimal(n as nat),
    decreases n,
{
    let mut out: Vec<char> = Vec::new();
    if n >= 10 {
        out = decimal_digits(n / 10);
    }
    out.push(digit((n % 10) as usize));
    assert(n < 10 ==> out@ == seq![digit_char(n as nat)]);
    out
}

/// The decimal notation of `n`.
pub fn decimal_chars(n: usize) -> (r: Vec<char>)
    ensures
        r@ == decimal(n as nat),
{
    decimal_digits(n as u64)
}

/// The decimal notation of `n` as a string.
pub fn decimal_string(n: usize) -> (r: String)
    ensures
        r@ == decimal(n as nat),
{
    string_of(&decimal_chars(n))
}

} // verus!
