//! Paths as texts with `/` between components.
//!
//! A path is compared and taken apart by its components: repeated
//! separators, trailing separators and `.` components (but for a leading one)
//! carry no meaning.

use crate::order;
use crate::order::Rank;
use crate::text;
use vstd::prelude::*;
use vstd::string::*;

verus! {

/// One component of a path.
#[verifier::ext_equal]
pub enum Part {
    /// The leading separator of an absolute path.
    Root,
    /// A leading `.`.
    Current,
    /// A `..`.
    Parent,
    /// A named file or directory.
    Name(Seq<char>),
}

/// A component and the characters `start..end` of the path it takes.
pub struct Place {
    pub part: Part,
    pub start: int,
    pub end: int,
}

/// The position of the first separator at or after `i`, or the end.
pub open spec fn slash_from(s: Seq<char>, i: int) -> int
    decreases s.len() - i,
{
    if i < 0 || i >= s.len() {
        s.len() as int
    } else if s[i] == '/' {
        i
    } else {
        slash_from(s, i + 1)
    }
}

/// The component a segment between separators stands for.
pub open spec fn segment_part(seg: Seq<char>) -> Part {
    if seg == seq!['.', '.'] {
        Part::Parent
    } else {
        Part::Name(seg)
    }
}

/// Whether a segment carries no component: it is empty or a `.`.
pub open spec fn is_idle(seg: Seq<char>) -> bool {
    seg.len() == 0 || seg == seq!['.']
}

/// The components of the part of a path that starts at `i`.
pub open spec fn places_from(s: Seq<char>, i: int) -> Seq<Place>
    decreases s.len() - i,
    via places_from_decreases
{
    if i < 0 || i >= s.len() {
        Seq::empty()
    } else {
        let n = slash_from(s, i);
        let seg = s.subrange(i, n);
        let rest = if n < s.len() {
            places_from(s, n + 1)
        } else {
            Seq::empty()
        };
        if is_idle(seg) {
            rest
        } else {
            seq![Place { part: segment_part(seg), start: i, end: n }] + rest
        }
    }
}

#[via_fn]
proof fn places_from_decreases(s: Seq<char>, i: int) {
    lemma_slash_from(s, i);
}

/// Whether a path starts with a `.` component.
pub open spec fn leads_with_dot(s: Seq<char>) -> bool {
    s.len() > 0 && s[0] == '.' && (s.len() == 1 || s[1] == '/')
}

/// The components of a path and where they stand in it.
pub open spec fn places(s: Seq<char>) -> Seq<Place> {
    if s.len() > 0 && s[0] == '/' {
        seq![Place { part: Part::Root, start: 0, end: 1 }] + places_from(s, 1)
    } else if leads_with_dot(s) {
        seq![Place { part: Part::Current, start: 0, end: 1 }] + places_from(s, 1)
    } else {
        places_from(s, 0)
    }
}

/// The components of a path.
pub open spec fn parts(s: Seq<char>) -> Seq<Part> {
    places(s).map_values(|p: Place| p.part)
}

/// Where [`slash_from`] stops.
pub proof fn lemma_slash_from(s: Seq<char>, i: int)
    ensures
        0 <= i <= s.len() ==> i <= slash_from(s, i) <= s.len(),
        0 <= i ==> forall|k: int| i <= k < slash_from(s, i) ==> s[k] != '/',
        0 <= i && slash_from(s, i) < s.len() ==> s[slash_from(s, i)] == '/',
    decreases s.len() - i,
{
    if 0 <= i < s.len() && s[i] != '/' {
        lemma_slash_from(s, i + 1);
    }
}

proof fn lemma_slash_is(s: Seq<char>, i: int, n: int)
    requires
        0 <= i <= n <= s.len(),
        forall|k: int| i <= k < n ==> s[k] != '/',
        n < s.len() ==> s[n] == '/',
    ensures
        slash_from(s, i) == n,
    decreases n - i,
{
    if i < n {
        lemma_slash_is(s, i + 1, n);
    }
}

/// Components stand one after another inside the path.
pub proof fn lemma_places_from(s: Seq<char>, i: int)
    requires
        0 <= i,
    ensures
        forall|k: int|
            0 <= k < places_from(s, i).len() ==> i <= (#[trigger] places_from(s, i)[k]).start
                < places_from(s, i)[k].end <= s.len(),
        forall|k: int, l: int|
            0 <= k < l < places_from(s, i).len() ==> (#[trigger] places_from(s, i)[k]).end < (
            #[trigger] places_from(s, i)[l]).start,
    decreases s.len() - i,
{
    if i < s.len() {
        lemma_slash_from(s, i);
        let n = slash_from(s, i);
        if n < s.len() {
            lemma_places_from(s, n + 1);
        }
        let rest = if n < s.len() {
            places_from(s, n + 1)
        } else {
            Seq::empty()
        };
        let all = places_from(s, i);
        if !is_idle(s.subrange(i, n)) {
            assert forall|k: int| 0 <= k < all.len() implies i <= (#[trigger] all[k]).start
                < all[k].end <= s.len() by {
                if k > 0 {
                    assert(all[k] == rest[k - 1]);
                }
            }
            assert forall|k: int, l: int| 0 <= k < l < all.len() implies (#[trigger] all[k]).end < (
            #[trigger] all[l]).start by {
                assert(all[l] == rest[l - 1]);
                if k > 0 {
                    assert(all[k] == rest[k - 1]);
                }
            }
        }
    }
}

/// Components stand one after another inside the path.
pub proof fn lemma_places(s: Seq<char>)
    ensures
        forall|k: int|
            0 <= k < places(s).len() ==> 0 <= (#[trigger] places(s)[k]).start < places(s)[k].end
                <= s.len(),
        forall|k: int, l: int|
            0 <= k < l < places(s).len() ==> (#[trigger] places(s)[k]).end <= (
            #[trigger] places(s)[l]).start,
{
    lemma_places_from(s, 0);
    lemma_places_from(s, 1);
    let all = places(s);
    let rest = places_from(s, 1);
    if s.len() > 0 && (s[0] == '/' || leads_with_dot(s)) {
        assert forall|k: int| 0 <= k < all.len() implies 0 <= (#[trigger] all[k]).start
            < all[k].end <= s.len() by {
            if k > 0 {
                assert(all[k] == rest[k - 1]);
            }
        }
        assert forall|k: int, l: int| 0 <= k < l < all.len() implies (#[trigger] all[k]).end <= (
        #[trigger] all[l]).start by {
            assert(all[l] == rest[l - 1]);
            if k > 0 {
                assert(all[k] == rest[k - 1]);
            }
        }
    }
}

// ---------------------------------------------------------------------------
// Taking a path apart
// ---------------------------------------------------------------------------

/// A component of a path and where it stands.
pub struct Piece {
    kind: Kind,
    name: Vec<char>,
    start: usize,
    end: usize,
}

/// The kind of a component.
#[derive(Clone, Copy, PartialEq, Eq, Structural)]
enum Kind {
    Root,
    Current,
    Parent,
    Name,
}

impl Piece {
    /// The component and its place.
    pub closed spec fn place(self) -> Place {
        Place { part: self.part(), start: self.start as int, end: self.end as int }
    }

    /// The component.
    pub closed spec fn part(self) -> Part {
        match self.kind {
            Kind::Root => Part::Root,
            Kind::Current => Part::Current,
            Kind::Parent => Part::Parent,
            Kind::Name => Part::Name(self.name@),
        }
    }
}

/// The places of a list of components.
spec fn piece_places(ps: Seq<Piece>) -> Seq<Place> {
    ps.map_values(|p: Piece| p.place())
}

/// The components of a path.
fn pieces_of(cs: &Vec<char>) -> (r: Vec<Piece>)
    ensures
        piece_places(r@) == places(cs@),
        r@.len() == places(cs@).len(),
{
    let mut out: Vec<Piece> = Vec::new();
    let mut i: usize = 0;
    if cs.len() > 0 && cs[0] == '/' {
        out.push(Piece { kind: Kind::Root, name: Vec::new(), start: 0, end: 1 });
        i = 1;
    } else if cs.len() > 0 && cs[0] == '.' && (cs.len() == 1 || cs[1] == '/') {
        out.push(Piece { kind: Kind::Current, name: Vec::new(), start: 0, end: 1 });
        i = 1;
    }
    assert(piece_places(out@) + places_from(cs@, i as int) == places(cs@));
    while i < cs.len()
        invariant
            i <= cs.len(),
            piece_places(out@) + places_from(cs@, i as int) == places(cs@),
        decreases cs.len() - i,
    {
        let mut n: usize = i;
        while n < cs.len() && cs[n] != '/'
            invariant
                i <= n <= cs.len(),
                forall|k: int| i <= k < n ==> cs@[k] != '/',
            decreases cs.len() - n,
        {
            n += 1;
        }
        proof {
            lemma_slash_is(cs@, i as int, n as int);
        }
        let ghost before = piece_places(out@);
        let next: usize = if n < cs.len() {
            n + 1
        } else {
            n
        };
        let ghost rest = places_from(cs@, next as int);
        let seg = text::slice_of(cs, i, n);
        let idle = seg.len() == 0 || (seg.len() == 1 && seg[0] == '.');
        assert(seg@.len() == 1 && seg@[0] == '.' ==> seg@ == seq!['.']);
        if !idle {
            let up = seg.len() == 2 && seg[0] == '.' && seg[1] == '.';
            assert(up ==> seg@ == seq!['.', '.']);
            let kind = if up {
                Kind::Parent
            } else {
                Kind::Name
            };
            let ghost one = Place {
                part: segment_part(seg@),
                start: i as int,
                end: n as int,
            };
            out.push(Piece { kind, name: seg, start: i, end: n });
            proof {
                assert(piece_places(out@) == before.push(one));
                assert(before + (seq![one] + rest) == before.push(one) + rest);
            }
        }
        i = next;
    }
    assert(piece_places(out@) + Seq::<Place>::empty() == piece_places(out@));
    assert(piece_places(out@).len() == out@.len());
    out
}

/// Whether two components are the same.
fn same_piece(a: &Piece, b: &Piece) -> (r: bool)
    ensures
        r == (a.part() == b.part()),
{
    if a.kind == Kind::Name && b.kind == Kind::Name {
        text::same_chars(&a.name, &b.name)
    } else {
        a.kind == b.kind
    }
}

/// `b` read from the directory `a`: `b` itself when it is absolute.
pub open spec fn joined(a: Seq<char>, b: Seq<char>) -> Seq<char> {
    if b.len() > 0 && b[0] == '/' {
        b
    } else if a.len() == 0 || a.last() == '/' {
        a + b
    } else {
        a + seq!['/'] + b
    }
}

/// `b` read from the directory `a`: `b` itself when it is absolute.
pub fn join(a: &str, b: &str) -> (r: String)
    ensures
        r@ == joined(a@, b@),
{
    let x = text::chars_of(a);
    let y = text::chars_of(b);
    if y.len() > 0 && y[0] == '/' {
        return b.to_owned();
    }
    let mut out = a.to_owned();
    if x.len() > 0 && x[x.len() - 1] != '/' {
        out.push('/');
        assert(out@ == a@ + seq!['/']);
    }
    out.append(b);
    out
}

/// Whether the components of `base` lead those of `path`.
pub open spec fn is_under(path: Seq<char>, base: Seq<char>) -> bool {
    parts(base).len() <= parts(path).len() && parts(path).take(parts(base).len() as int) == parts(
        base,
    )
}

/// What remains of `path` after the components of `base`.
pub open spec fn rest_after(path: Seq<char>, base: Seq<char>) -> Seq<char> {
    let n = parts(base).len();
    let ps = places(path);
    if n >= ps.len() {
        Seq::empty()
    } else {
        path.subrange(ps[n as int].start, ps.last().end)
    }
}

/// `path` as seen from `base`, or `path` itself when it is not under `base`.
pub open spec fn relative(path: Seq<char>, base: Seq<char>) -> Seq<char> {
    if is_under(path, base) {
        rest_after(path, base)
    } else {
        path
    }
}

/// What remains of `path` after the components of `base`, when they lead it.
pub fn strip_prefix(path: &str, base: &str) -> (r: Option<String>)
    ensures
        match r {
            Some(rest) => is_under(path@, base@) && rest@ == rest_after(path@, base@),
            None => !is_under(path@, base@),
        },
{
    let cs = text::chars_of(path);
    let ps = pieces_of(&cs);
    let bs = pieces_of(&text::chars_of(base));
    let ghost pp = parts(path@);
    let ghost bp = parts(base@);
    assert(pp.len() == ps.len() && bp.len() == bs.len());
    if bs.len() > ps.len() {
        return None;
    }
    let mut k: usize = 0;
    while k < bs.len()
        invariant
            k <= bs.len() <= ps.len(),
            piece_places(ps@) == places(path@),
            piece_places(bs@) == places(base@),
            pp == parts(path@),
            bp == parts(base@),
            pp.len() == ps.len() && bp.len() == bs.len(),
            forall|j: int| 0 <= j < k ==> pp[j] == bp[j],
        decreases bs.len() - k,
    {
        proof {
            assert(piece_places(ps@)[k as int].part == pp[k as int]);
            assert(piece_places(bs@)[k as int].part == bp[k as int]);
        }
        if !same_piece(&ps[k], &bs[k]) {
            assert(pp.take(bp.len() as int)[k as int] != bp[k as int]);
            return None;
        }
        k += 1;
    }
    assert(pp.take(bp.len() as int) == bp);
    if bs.len() >= ps.len() {
        return Some(String::new());
    }
    let last: usize = ps.len() - 1;
    proof {
        lemma_places(path@);
        assert(piece_places(ps@)[bs.len() as int] == ps@[bs.len() as int].place());
        assert(piece_places(ps@)[last as int] == ps@[last as int].place());
        assert(places(path@)[bs.len() as int].end <= places(path@)[last as int].end);
    }
    Some(text::string_of(&text::slice_of(&cs, ps[bs.len()].start, ps[last].end)))
}

/// `path` as seen from `base`, or `path` itself when it is not under `base`.
pub fn relative_to(path: &str, base: &str) -> (r: String)
    ensures
        r@ == relative(path@, base@),
{
    match strip_prefix(path, base) {
        Some(rest) => rest,
        None => path.to_owned(),
    }
}

/// The directory that holds `path`, when it has one: everything before the
/// last component.
pub open spec fn parent_of(path: Seq<char>) -> Option<Seq<char>> {
    let ps = places(path);
    if ps.len() == 0 || ps.last().part == Part::Root {
        None
    } else if ps.len() == 1 {
        Some(Seq::empty())
    } else {
        Some(path.take(ps[ps.len() - 2].end))
    }
}

/// The directory that holds `path`, when it has one.
pub fn parent(path: &str) -> (r: Option<String>)
    ensures
        match r {
            Some(p) => parent_of(path@) == Some(p@),
            None => parent_of(path@) is None,
        },
{
    let cs = text::chars_of(path);
    let ps = pieces_of(&cs);
    if ps.len() == 0 {
        return None;
    }
    let last: usize = ps.len() - 1;
    assert(piece_places(ps@)[last as int] == ps@[last as int].place());
    if ps[last].kind == Kind::Root {
        return None;
    }
    if last == 0 {
        let empty = String::new();
        return Some(empty);
    }
    proof {
        lemma_places(path@);
        assert(piece_places(ps@)[last - 1] == ps@[last - 1].place());
        let end = places(path@)[last - 1].end;
        assert(cs@.subrange(0, end) == cs@.take(end));
    }
    Some(text::string_of(&text::slice_of(&cs, 0, ps[last - 1].end)))
}

/// The name of the file a path stands for: its last component, when that is
/// a name.
pub open spec fn name_of(path: Seq<char>) -> Option<Seq<char>> {
    let ps = places(path);
    if ps.len() == 0 {
        None
    } else {
        match ps.last().part {
            Part::Name(n) => Some(n),
            _ => None,
        }
    }
}

/// The name of the file a path stands for.
pub fn file_name(path: &str) -> (r: Option<Vec<char>>)
    ensures
        match r {
            Some(n) => name_of(path@) == Some(n@),
            None => name_of(path@) is None,
        },
{
    let cs = text::chars_of(path);
    let ps = pieces_of(&cs);
    if ps.len() == 0 {
        return None;
    }
    let last: usize = ps.len() - 1;
    assert(piece_places(ps@)[last as int] == ps@[last as int].place());
    if ps[last].kind == Kind::Name {
        Some(text::slice_of(&ps[last].name, 0, ps[last].name.len()))
    } else {
        None
    }
}

/// The directory of a file is what its name was joined to.
pub proof fn law_the_parent_is_the_directory(dir: Seq<char>, name: Seq<char>)
    requires
        dir.len() > 0,
        dir.last() != '/' && dir.last() != '.',
        name.len() > 0,
        !name.contains('/'),
        name != seq!['.'],
    ensures
        parent_of(joined(dir, name)) == Some(dir),
{
    let s = joined(dir, name);
    assert(name.contains(name[0]));
    lemma_joined_places(dir, name);
    lemma_dir_end(dir);
    assert(name.skip(0) == name);
    assert forall|x: int| 0 <= x < name.len() implies name[x] != '/' by {
        assert(name.contains(name[x]));
    }
    lemma_slash_from(name, 0);
    let n = slash_from(name, 0);
    assert(n == name.len()) by {
        if n < name.len() {
            assert(name[n] != '/');
        }
    }
    assert(name.subrange(0, n) == name);
    let tail = places_from(name, 0);
    assert(tail.len() == 1);
    let ps = places(s);
    assert(ps.len() == places(dir).len() + 1);
    assert(ps[ps.len() - 2] == places(dir).last());
    assert(ps.last().part == tail[0].part);
    assert(s.take(dir.len() as int) == dir);
}

/// The last place of a path that ends in a name ends where the path does.
proof fn lemma_dir_end(dir: Seq<char>)
    requires
        dir.len() > 0,
        dir.last() != '/',
        dir.last() != '.',
    ensures
        places(dir).len() > 0,
        places(dir).last().end == dir.len(),
{
    let k = lemma_last_segment(dir);
    if dir[0] == '/' {
        assert(k > 0);
        lemma_last_place(dir, 1, k);
    } else if leads_with_dot(dir) {
        if dir.len() == 1 {
            assert(dir.last() == dir[0]);
        }
        assert(dir[1] == '/');
        assert(k > 1);
        lemma_last_place(dir, 1, k);
    } else {
        lemma_last_place(dir, 0, k);
    }
}

/// The position of the last `.` before `i`, or -1.
pub open spec fn last_dot(s: Seq<char>, i: int) -> int
    decreases i,
{
    if i <= 0 {
        -1
    } else if s[i - 1] == '.' {
        i - 1
    } else {
        last_dot(s, i - 1)
    }
}

/// The extension of a file name: what follows its last `.`, unless that is
/// its first character.
pub open spec fn name_extension(name: Seq<char>) -> Option<Seq<char>> {
    let d = last_dot(name, name.len() as int);
    if d <= 0 {
        None
    } else {
        Some(name.skip(d + 1))
    }
}

/// A file name without its extension.
pub open spec fn name_stem(name: Seq<char>) -> Seq<char> {
    let d = last_dot(name, name.len() as int);
    if d <= 0 {
        name
    } else {
        name.take(d)
    }
}

/// The extension of the file a path stands for.
pub open spec fn extension_of(path: Seq<char>) -> Option<Seq<char>> {
    match name_of(path) {
        Some(n) => name_extension(n),
        None => None,
    }
}

/// The name without extension of the file a path stands for.
pub open spec fn stem_of(path: Seq<char>) -> Option<Seq<char>> {
    match name_of(path) {
        Some(n) => Some(name_stem(n)),
        None => None,
    }
}

/// The position after the last `.` of a name, or 0.
fn find_last_dot(name: &Vec<char>) -> (r: usize)
    ensures
        r == last_dot(name@, name.len() as int) + 1,
        r <= name.len(),
{
    let mut i: usize = name.len();
    while i > 0 && name[i - 1] != '.'
        invariant
            i <= name.len(),
            last_dot(name@, name.len() as int) == last_dot(name@, i as int),
        decreases i,
    {
        i -= 1;
    }
    i
}

/// The extension of the file a path stands for.
pub fn extension(path: &str) -> (r: Option<String>)
    ensures
        match r {
            Some(e) => extension_of(path@) == Some(e@),
            None => extension_of(path@) is None,
        },
{
    match file_name(path) {
        Some(name) => {
            let d: usize = find_last_dot(&name);
            if d <= 1 {
                None
            } else {
                assert(name@.subrange(d as int, name.len() as int) == name@.skip(d as int));
                Some(text::string_of(&text::slice_of(&name, d, name.len())))
            }
        },
        None => None,
    }
}

/// The name without extension of the file a path stands for.
pub fn file_stem(path: &str) -> (r: Option<Vec<char>>)
    ensures
        match r {
            Some(e) => stem_of(path@) == Some(e@),
            None => stem_of(path@) is None,
        },
{
    match file_name(path) {
        Some(name) => {
            let d: usize = find_last_dot(&name);
            if d <= 1 {
                Some(name)
            } else {
                assert(name@.subrange(0, d - 1) == name@.take(d - 1));
                Some(text::slice_of(&name, 0, d - 1))
            }
        },
        None => None,
    }
}

// ---------------------------------------------------------------------------
// Order
// ---------------------------------------------------------------------------

/// The last part of a path whose last segment starts at `k`.
proof fn lemma_last_place(s: Seq<char>, i: int, k: int)
    requires
        0 <= i <= k < s.len(),
        k == i || s[k - 1] == '/',
        forall|x: int| k <= x < s.len() ==> s[x] != '/',
        !is_idle(s.skip(k)),
    ensures
        places_from(s, i).len() > 0,
        places_from(s, i).last() == (Place {
            part: segment_part(s.skip(k)),
            start: k,
            end: s.len() as int,
        }),
    decreases k - i,
{
    lemma_slash_from(s, i);
    let n = slash_from(s, i);
    if k == i {
        assert(n == s.len()) by {
            if n < s.len() {
                assert(s[n] == '/');
            }
        }
        assert(s.subrange(i, n) == s.skip(k));
    } else {
        assert(n < k) by {
            if n >= k {
                assert(s[k - 1] != '/');
            }
        }
        lemma_last_place(s, n + 1, k);
    }
}

/// The file name of a path is what was joined to its directory last.
pub proof fn law_a_joined_name_is_the_file_name(dir: Seq<char>, name: Seq<char>)
    requires
        name.len() > 0,
        !name.contains('/'),
        name != seq!['.'],
        name != seq!['.', '.'],
    ensures
        name_of(joined(dir, name)) == Some(name),
{
    let s = joined(dir, name);
    let k = s.len() - name.len();
    assert(s.skip(k) == name);
    assert forall|x: int| k <= x < s.len() implies s[x] != '/' by {
        assert(name[x - k] == s[x]);
        assert(name.contains(name[x - k]));
    }
    assert(name.contains(name[0]));
    assert(k > 0 ==> s[k - 1] == '/');
    if s[0] == '/' {
        assert(k > 0);
        lemma_last_place(s, 1, k);
    } else if leads_with_dot(s) {
        if k == 0 {
            assert(s == name);
            if s.len() == 1 {
                assert(name == seq!['.']);
            } else {
                assert(name.contains(name[1]));
            }
        }
        assert(k > 1);
        lemma_last_place(s, 1, k);
    } else {
        lemma_last_place(s, 0, k);
    }
    assert(places(s).last() == (Place {
        part: segment_part(name),
        start: k,
        end: s.len() as int,
    }));
}

/// The extension of a file is what follows the last dot of its name, and its
/// stem what stands before that; a dot that starts the name does not count.
pub proof fn law_the_extension_follows_the_last_dot(
    dir: Seq<char>,
    stem: Seq<char>,
    ext: Seq<char>,
)
    requires
        stem.len() > 0,
        !stem.contains('/'),
        !ext.contains('/'),
        !ext.contains('.'),
        stem != seq!['.'] || ext.len() > 0,
    ensures
        extension_of(joined(dir, stem + seq!['.'] + ext)) == Some(ext),
        stem_of(joined(dir, stem + seq!['.'] + ext)) == Some(stem),
{
    let name = stem + seq!['.'] + ext;
    assert(!name.contains('/')) by {
        if name.contains('/') {
            let k = choose|k: int| 0 <= k < name.len() && name[k] == '/';
            if k < stem.len() {
                assert(stem[k] == '/');
            } else if k > stem.len() {
                assert(ext[k - stem.len() - 1] == '/');
            }
        }
    }
    assert(name.len() >= 2);
    if name == seq!['.', '.'] {
        assert(name.len() == 2);
        assert(stem[0] == name[0]);
        assert(stem == seq!['.']);
    }
    law_a_joined_name_is_the_file_name(dir, name);
    assert forall|k: int| stem.len() < k < name.len() implies name[k] != '.' by {
        assert(ext.contains(ext[k - stem.len() - 1]));
    }
    lemma_last_dot_is(name, name.len() as int, stem.len() as int);
    assert(name.skip((stem.len() + 1) as int) == ext);
    assert(name.take(stem.len() as int) == stem);
}

/// A name without a dot, but for one that starts it, has no extension.
pub proof fn law_names_without_a_dot_have_no_extension(dir: Seq<char>, name: Seq<char>)
    requires
        name.len() > 0,
        !name.contains('/'),
        name != seq!['.'],
        forall|k: int| 0 < k < name.len() ==> name[k] != '.',
    ensures
        extension_of(joined(dir, name)) is None,
        stem_of(joined(dir, name)) == Some(name),
{
    if name == seq!['.', '.'] {
        assert(name[1] == '.');
    }
    law_a_joined_name_is_the_file_name(dir, name);
    lemma_no_last_dot(name, name.len() as int);
}

proof fn lemma_no_last_dot(s: Seq<char>, i: int)
    requires
        0 <= i <= s.len(),
        forall|k: int| 0 < k < s.len() ==> s[k] != '.',
    ensures
        last_dot(s, i) <= 0,
    decreases i,
{
    if i > 0 && s[i - 1] != '.' {
        lemma_no_last_dot(s, i - 1);
    }
}

proof fn lemma_last_dot_is(s: Seq<char>, i: int, d: int)
    requires
        0 <= d < i <= s.len(),
        s[d] == '.',
        forall|k: int| d < k < i ==> s[k] != '.',
    ensures
        last_dot(s, i) == d,
    decreases i,
{
    if d + 1 < i {
        lemma_last_dot_is(s, i - 1, d);
    }
}

/// The places of a path further on.
spec fn shifted(ps: Seq<Place>, n: nat) -> Seq<Place> {
    ps.map_values(|p: Place| Place { part: p.part, start: p.start + n, end: p.end + n })
}

/// The places of a path do not depend on what stands before them.
proof fn lemma_places_shift(a: Seq<char>, b: Seq<char>, i: int)
    requires
        0 <= i <= b.len(),
    ensures
        places_from(a + b, a.len() + i) == shifted(places_from(b, i), a.len()),
    decreases b.len() - i,
{
    let s = a + b;
    let m = a.len() as int;
    if i < b.len() {
        lemma_slash_from(b, i);
        lemma_slash_shift(a, b, i);
        let n = slash_from(b, i);
        assert(s.subrange(m + i, m + n) == b.subrange(i, n));
        if n < b.len() {
            lemma_places_shift(a, b, n + 1);
        }
        assert(places_from(s, m + i) == shifted(places_from(b, i), a.len()));
    } else {
        assert(places_from(s, m + i) == shifted(places_from(b, i), a.len()));
    }
}

proof fn lemma_slash_shift(a: Seq<char>, b: Seq<char>, i: int)
    requires
        0 <= i <= b.len(),
    ensures
        slash_from(a + b, a.len() + i) == a.len() + slash_from(b, i),
    decreases b.len() - i,
{
    if i < b.len() {
        assert((a + b)[a.len() + i] == b[i]);
        if b[i] != '/' {
            lemma_slash_shift(a, b, i + 1);
        }
    }
}

/// The places of a path behind a slash come after those before it.
proof fn lemma_places_concat(a: Seq<char>, b: Seq<char>, i: int)
    requires
        0 <= i <= a.len(),
    ensures
        places_from(a + seq!['/'] + b, i) == places_from(a, i) + shifted(
            places_from(b, 0),
            a.len() + 1,
        ),
    decreases a.len() - i,
{
    let s = a + seq!['/'] + b;
    let tail = shifted(places_from(b, 0), a.len() + 1);
    lemma_places_shift(a + seq!['/'], b, 0);
    assert(places_from(s, (a.len() + 1) as int) == tail);
    lemma_slash_from(a, i);
    lemma_slash_before(a, b, i);
    let n = slash_from(a, i);
    assert(s.subrange(i, n) == a.subrange(i, n));
    if i == a.len() {
        assert(n == a.len());
        assert(is_idle(a.subrange(i, n)));
        assert(places_from(a, i) + tail == tail);
    } else if n < a.len() {
        lemma_places_concat(a, b, n + 1);
        let one = seq![Place { part: segment_part(a.subrange(i, n)), start: i, end: n }];
        assert(one + (places_from(a, n + 1) + tail) == one + places_from(a, n + 1) + tail);
    } else {
        let one = seq![Place { part: segment_part(a.subrange(i, n)), start: i, end: n }];
        let none = Seq::<Place>::empty();
        assert(one + none == one);
        assert(none + tail == tail);
    }
}

proof fn lemma_slash_before(a: Seq<char>, b: Seq<char>, i: int)
    requires
        0 <= i <= a.len(),
    ensures
        slash_from(a + seq!['/'] + b, i) == slash_from(a, i),
    decreases a.len() - i,
{
    let s = a + seq!['/'] + b;
    if i < a.len() {
        assert(s[i] == a[i]);
        if a[i] != '/' {
            lemma_slash_before(a, b, i + 1);
        }
    } else {
        assert(s[i] == '/');
    }
}

/// The places of a joined path are those of the directory and, further on,
/// those of what was joined to it.
proof fn lemma_joined_places(a: Seq<char>, b: Seq<char>)
    requires
        a.len() > 0,
        a.last() != '/',
        b.len() > 0,
        b[0] != '/',
    ensures
        places(joined(a, b)) == places(a) + shifted(places_from(b, 0), a.len() + 1),
{
    let s = joined(a, b);
    assert(s == a + seq!['/'] + b);
    assert(s[0] == a[0]);
    let tail = shifted(places_from(b, 0), a.len() + 1);
    if a[0] == '/' {
        lemma_places_concat(a, b, 1);
        let one = seq![Place { part: Part::Root, start: 0, end: 1 }];
        assert(one + (places_from(a, 1) + tail) == one + places_from(a, 1) + tail);
    } else {
        assert(a.len() > 1 ==> s[1] == a[1]);
        assert(leads_with_dot(s) == leads_with_dot(a));
        if leads_with_dot(a) {
            lemma_places_concat(a, b, 1);
            let one = seq![Place { part: Part::Current, start: 0, end: 1 }];
            assert(one + (places_from(a, 1) + tail) == one + places_from(a, 1) + tail);
        } else {
            lemma_places_concat(a, b, 0);
        }
    }
}

/// A path joined to a directory is under it and is what is left of the joined
/// path as seen from there.
pub proof fn law_joining_and_leaving_a_directory(base: Seq<char>, rel: Seq<char>)
    requires
        base.len() > 0,
        base.last() != '/',
        rel.len() > 0,
        rel[0] != '/' && rel[0] != '.',
        rel.last() != '/' && rel.last() != '.',
    ensures
        is_under(joined(base, rel), base),
        relative(joined(base, rel), base) == rel,
{
    let s = joined(base, rel);
    let m = base.len() + 1;
    let ps = places_from(rel, 0);
    lemma_joined_places(base, rel);
    lemma_first_place(rel);
    let n = places(base).len() as int;
    let k = lemma_last_segment(rel);
    lemma_last_place(rel, 0, k);
    assert(places(s)[n] == shifted(ps, m)[0]);
    assert(places(s).last() == shifted(ps, m).last());
    assert(places(s).len() > n);
    assert(parts(s).take(n) == parts(base));
    assert(s.subrange(m as int, s.len() as int) == rel);
}

/// A path that starts with a name has it as its first place.
proof fn lemma_first_place(s: Seq<char>)
    requires
        s.len() > 0,
        s[0] != '/',
        s[0] != '.',
    ensures
        places_from(s, 0).len() > 0,
        places_from(s, 0)[0].start == 0,
{
    lemma_slash_from(s, 0);
    let n = slash_from(s, 0);
    assert(s.subrange(0, n)[0] == s[0]);
}

/// Where the last segment of a path starts.
proof fn lemma_last_segment(s: Seq<char>) -> (k: int)
    requires
        s.len() > 0,
        s.last() != '/',
        s.last() != '.',
    ensures
        0 <= k < s.len(),
        k == 0 || s[k - 1] == '/',
        forall|x: int| k <= x < s.len() ==> s[x] != '/',
        !is_idle(s.skip(k)),
{
    let k = lemma_after_slash(s, s.len() as int);
    assert(s.skip(k).last() == s.last());
    k
}

proof fn lemma_after_slash(s: Seq<char>, i: int) -> (k: int)
    requires
        0 <= i <= s.len(),
    ensures
        0 <= k <= i,
        k == 0 || s[k - 1] == '/',
        forall|x: int| k <= x < i ==> s[x] != '/',
    decreases i,
{
    if i == 0 || s[i - 1] == '/' {
        i
    } else {
        lemma_after_slash(s, i - 1)
    }
}

/// An absolute path stays when it is joined to a directory, and a path that
/// is not under a directory stays as seen from there.
pub proof fn law_other_paths_stay(base: Seq<char>, p: Seq<char>)
    ensures
        p.len() > 0 && p[0] == '/' ==> joined(base, p) == p,
        !is_under(p, base) ==> relative(p, base) == p,
{
}

/// The place of a component's kind in the order of components.
pub open spec fn part_level(p: Part) -> int {
    match p {
        Part::Root => 0,
        Part::Current => 1,
        Part::Parent => 2,
        Part::Name(_) => 3,
    }
}

/// The order of components: by kind, and names by code point.
pub open spec fn part_order(a: Part, b: Part) -> int {
    match (a, b) {
        (Part::Name(x), Part::Name(y)) => order::text_order(x, y),
        _ => part_level(a) - part_level(b),
    }
}

/// The order of paths: component by component.
pub open spec fn path_order(a: Seq<char>, b: Seq<char>) -> int {
    order::lex_order(parts(a), parts(b), |x: Part, y: Part| part_order(x, y), 0)
}

/// Components are totally ordered.
pub proof fn lemma_part_order()
    ensures
        order::is_order(|x: Part, y: Part| part_order(x, y)),
{
    let f = |x: Part, y: Part| part_order(x, y);
    let g = |a: Seq<char>, b: Seq<char>| order::text_order(a, b);
    order::lemma_text_order();
    assert forall|a: Part, b: Part| #[trigger] f(a, b) == 0 <==> a == b by {
        if let (Part::Name(x), Part::Name(y)) = (a, b) {
            assert(g(x, y) == 0 <==> x == y);
        }
    }
    assert forall|a: Part, b: Part| #[trigger] f(a, b) < 0 <==> f(b, a) > 0 by {
        if let (Part::Name(x), Part::Name(y)) = (a, b) {
            assert(g(x, y) < 0 <==> g(y, x) > 0);
        }
    }
    assert forall|a: Part, b: Part, c: Part|
        #[trigger] f(a, b) <= 0 && #[trigger] f(b, c) <= 0 implies f(a, c) <= 0 by {
        if let (Part::Name(x), Part::Name(y), Part::Name(z)) = (a, b, c) {
            assert(g(x, y) <= 0 && g(y, z) <= 0 ==> g(x, z) <= 0);
        }
    }
}

/// Any two paths can be compared, and two paths are of the same rank exactly
/// when they have the same components.
pub proof fn lemma_path_order(a: Seq<char>, b: Seq<char>)
    ensures
        path_order(a, b) <= 0 || path_order(b, a) <= 0,
        path_order(a, b) == 0 <==> parts(a) == parts(b),
        path_order(a, b) < 0 <==> path_order(b, a) > 0,
{
    let f = |x: Part, y: Part| part_order(x, y);
    lemma_part_order();
    order::lemma_lex_swap(parts(a), parts(b), f, 0);
    order::lemma_lex_zero(parts(a), parts(b), f, 0);
    assert(parts(a).skip(0) == parts(a));
    assert(parts(b).skip(0) == parts(b));
}

/// The order of paths is transitive.
pub proof fn lemma_path_transitive(a: Seq<char>, b: Seq<char>, c: Seq<char>)
    requires
        path_order(a, b) <= 0,
        path_order(b, c) <= 0,
    ensures
        path_order(a, c) <= 0,
{
    lemma_part_order();
    order::lemma_lex_transitive(
        parts(a),
        parts(b),
        parts(c),
        |x: Part, y: Part| part_order(x, y),
        0,
    );
}

/// Compares two paths component by component.
pub fn rank_paths(a: &str, b: &str) -> (r: Rank)
    ensures
        order::is_rank(r, path_order(a@, b@)),
{
    let ps = pieces_of(&text::chars_of(a));
    let qs = pieces_of(&text::chars_of(b));
    let ghost f = |x: Part, y: Part| part_order(x, y);
    let ghost pp = parts(a@);
    let ghost qp = parts(b@);
    let mut i: usize = 0;
    while i < ps.len() && i < qs.len()
        invariant
            i <= ps.len(),
            i <= qs.len(),
            ps.len() == pp.len(),
            qs.len() == qp.len(),
            pp == parts(a@),
            qp == parts(b@),
            piece_places(ps@) == places(a@),
            piece_places(qs@) == places(b@),
            f == (|x: Part, y: Part| part_order(x, y)),
            path_order(a@, b@) == order::lex_order(pp, qp, f, i as int),
        decreases ps.len() - i,
    {
        proof {
            assert(piece_places(ps@)[i as int].part == pp[i as int]);
            assert(piece_places(qs@)[i as int].part == qp[i as int]);
        }
        match rank_pieces(&ps[i], &qs[i]) {
            Rank::Before => {
                return Rank::Before;
            },
            Rank::After => {
                return Rank::After;
            },
            Rank::Same => {},
        }
        i += 1;
    }
    if i < qs.len() {
        Rank::Before
    } else if i < ps.len() {
        Rank::After
    } else {
        Rank::Same
    }
}

/// Compares two components.
fn rank_pieces(a: &Piece, b: &Piece) -> (r: Rank)
    ensures
        order::is_rank(r, part_order(a.part(), b.part())),
{
    if a.kind == Kind::Name && b.kind == Kind::Name {
        return order::rank_chars(&a.name, &b.name);
    }
    let x: u8 = level_of(a);
    let y: u8 = level_of(b);
    if x < y {
        Rank::Before
    } else if y < x {
        Rank::After
    } else {
        Rank::Same
    }
}

/// The place of a component's kind in the order of components.
fn level_of(a: &Piece) -> (r: u8)
    ensures
        r == part_level(a.part()),
{
    match a.kind {
        Kind::Root => 0,
        Kind::Current => 1,
        Kind::Parent => 2,
        Kind::Name => 3,
    }
}

/// Whether two paths have the same components.
pub fn same_path(a: &str, b: &str) -> (r: bool)
    ensures
        r == (parts(a@) == parts(b@)),
{
    proof {
        lemma_path_order(a@, b@);
    }
    rank_paths(a, b) == Rank::Same
}

} // verus!
