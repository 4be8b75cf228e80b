//! Orders on texts and lists, and a stable sort.

use vstd::prelude::*;

verus! {

// ---------------------------------------------------------------------------
// Lexicographic order
// ---------------------------------------------------------------------------

/// Whether `f` compares values by a total order: negative for smaller, zero
/// for equal, positive for larger.
pub open spec fn is_order<T>(f: spec_fn(T, T) -> int) -> bool {
    &&& forall|a: T, b: T| #[trigger] f(a, b) == 0 <==> a == b
    &&& forall|a: T, b: T| #[trigger] f(a, b) < 0 <==> f(b, a) > 0
    &&& forall|a: T, b: T, c: T|
        #[trigger] f(a, b) <= 0 && #[trigger] f(b, c) <= 0 ==> f(a, c) <= 0
}

/// The lexicographic comparison of two lists from position `i` on.
pub open spec fn lex_order<T>(a: Seq<T>, b: Seq<T>, f: spec_fn(T, T) -> int, i: int) -> int
    decreases a.len() - i,
{
    if i >= a.len() {
        if i >= b.len() {
            0
        } else {
            -1
        }
    } else if i >= b.len() {
        1
    } else if f(a[i], b[i]) != 0 {
        f(a[i], b[i])
    } else {
        lex_order(a, b, f, i + 1)
    }
}

/// The lexicographic comparison is zero exactly for equal lists.
pub proof fn lemma_lex_zero<T>(a: Seq<T>, b: Seq<T>, f: spec_fn(T, T) -> int, i: int)
    requires
        is_order(f),
        0 <= i <= a.len(),
        i <= b.len(),
    ensures
        lex_order(a, b, f, i) == 0 <==> a.skip(i) == b.skip(i),
    decreases a.len() - i,
{
    if i < a.len() && i < b.len() {
        lemma_lex_zero(a, b, f, i + 1);
        assert(a.skip(i) == seq![a[i]] + a.skip(i + 1));
        assert(b.skip(i) == seq![b[i]] + b.skip(i + 1));
        if a.skip(i) == b.skip(i) {
            assert(a.skip(i)[0] == b.skip(i)[0]);
            assert(f(a[i], b[i]) == 0);
            assert(a.skip(i + 1) == a.skip(i).skip(1));
            assert(b.skip(i + 1) == b.skip(i).skip(1));
        }
    } else if i < a.len() {
        assert(a.skip(i).len() != b.skip(i).len());
    } else if i < b.len() {
        assert(a.skip(i).len() != b.skip(i).len());
    } else {
        assert(a.skip(i) == b.skip(i));
    }
}

/// Swapping the lists swaps the sign of the lexicographic comparison.
pub proof fn lemma_lex_swap<T>(a: Seq<T>, b: Seq<T>, f: spec_fn(T, T) -> int, i: int)
    requires
        is_order(f),
        0 <= i,
    ensures
        lex_order(a, b, f, i) < 0 <==> lex_order(b, a, f, i) > 0,
        lex_order(a, b, f, i) > 0 <==> lex_order(b, a, f, i) < 0,
    decreases a.len() - i,
{
    if i < a.len() && i < b.len() {
        assert(f(a[i], b[i]) < 0 <==> f(b[i], a[i]) > 0);
        assert(f(b[i], a[i]) < 0 <==> f(a[i], b[i]) > 0);
        assert(f(b[i], a[i]) == 0 <==> b[i] == a[i]);
        assert(f(a[i], b[i]) == 0 <==> a[i] == b[i]);
        lemma_lex_swap(a, b, f, i + 1);
    }
}

/// The lexicographic comparison is transitive.
pub proof fn lemma_lex_transitive<T>(
    a: Seq<T>,
    b: Seq<T>,
    c: Seq<T>,
    f: spec_fn(T, T) -> int,
    i: int,
)
    requires
        is_order(f),
        0 <= i,
        lex_order(a, b, f, i) <= 0,
        lex_order(b, c, f, i) <= 0,
    ensures
        lex_order(a, c, f, i) <= 0,
    decreases a.len() - i,
{
    if i < a.len() && i < b.len() && i < c.len() {
        let x = a[i];
        let y = b[i];
        let z = c[i];
        assert(f(x, y) <= 0);
        assert(f(y, z) <= 0);
        assert(f(x, z) <= 0);
        assert(f(x, y) == 0 <==> x == y);
        assert(f(y, z) == 0 <==> y == z);
        if f(x, z) == 0 {
            assert(x == z);
            assert(f(x, y) < 0 <==> f(y, x) > 0);
            assert(f(x, y) == 0);
            lemma_lex_transitive(a, b, c, f, i + 1);
        }
    }
}

/// The order of characters: by code point.
pub open spec fn char_order(a: char, b: char) -> int {
    a as int - b as int
}

/// The order of texts: lexicographic, by code point.
pub open spec fn text_order(a: Seq<char>, b: Seq<char>) -> int {
    lex_order(a, b, |x: char, y: char| char_order(x, y), 0)
}

/// Characters are totally ordered.
pub proof fn lemma_char_order()
    ensures
        is_order(|x: char, y: char| char_order(x, y)),
{
}

/// Texts are totally ordered.
pub proof fn lemma_text_order()
    ensures
        is_order(|a: Seq<char>, b: Seq<char>| text_order(a, b)),
{
    let f = |x: char, y: char| char_order(x, y);
    lemma_char_order();
    let g = |a: Seq<char>, b: Seq<char>| text_order(a, b);
    assert forall|a: Seq<char>, b: Seq<char>| #[trigger] g(a, b) == 0 <==> a == b by {
        lemma_lex_zero(a, b, f, 0);
        assert(a.skip(0) == a && b.skip(0) == b);
    }
    assert forall|a: Seq<char>, b: Seq<char>| #[trigger] g(a, b) < 0 <==> g(b, a) > 0 by {
        lemma_lex_swap(a, b, f, 0);
    }
    assert forall|a: Seq<char>, b: Seq<char>, c: Seq<char>|
        #[trigger] g(a, b) <= 0 && #[trigger] g(b, c) <= 0 implies g(a, c) <= 0 by {
        lemma_lex_transitive(a, b, c, f, 0);
    }
}

/// A comparison result.
#[derive(Clone, Copy, PartialEq, Eq, Structural)]
pub enum Rank {
    Before,
    Same,
    After,
}

/// Whether a comparison result has the sign of `n`.
pub open spec fn is_rank(r: Rank, n: int) -> bool {
    match r {
        Rank::Before => n < 0,
        Rank::Same => n == 0,
        Rank::After => n > 0,
    }
}

/// Compares two texts by code point.
pub fn rank_chars(a: &Vec<char>, b: &Vec<char>) -> (r: Rank)
    ensures
        is_rank(r, text_order(a@, b@)),
{
    let ghost f = |x: char, y: char| char_order(x, y);
    let mut i: usize = 0;
    while i < a.len() && i < b.len()
        invariant
            i <= a.len(),
            i <= b.len(),
            f == (|x: char, y: char| char_order(x, y)),
            text_order(a@, b@) == lex_order(a@, b@, f, i as int),
        decreases a.len() - i,
    {
        if a[i] < b[i] {
            return Rank::Before;
        }
        if b[i] < a[i] {
            return Rank::After;
        }
        i += 1;
    }
    if i < b.len() {
        Rank::Before
    } else if i < a.len() {
        Rank::After
    } else {
        Rank::Same
    }
}

// ---------------------------------------------------------------------------
// Stable sort
// ---------------------------------------------------------------------------

/// A value that has a place in an order.
pub trait Ranked: View + Sized {
    /// The comparison of two values; not positive when `a` may stand before
    /// `b`.
    spec fn rank(a: Self::V, b: Self::V) -> int;

    /// Any two values can be compared.
    proof fn rank_is_total(a: Self::V, b: Self::V)
        ensures
            Self::rank(a, b) <= 0 || Self::rank(b, a) <= 0,
    ;

    /// The comparison is transitive.
    proof fn rank_is_transitive(a: Self::V, b: Self::V, c: Self::V)
        requires
            Self::rank(a, b) <= 0,
            Self::rank(b, c) <= 0,
        ensures
            Self::rank(a, c) <= 0,
    ;

    /// Whether `self` may stand before `other`.
    fn not_after(&self, other: &Self) -> (r: bool)
        ensures
            r == (Self::rank(self@, other@) <= 0),
    ;
}

/// The views of a list of values.
pub open spec fn views<T: View>(s: Seq<T>) -> Seq<T::V> {
    s.map_values(|t: T| t@)
}

/// A sorted list with `x` put behind every value that may stand before it.
pub open spec fn inserted<T: Ranked>(s: Seq<T::V>, x: T::V) -> Seq<T::V>
    decreases s.len(),
{
    if s.len() == 0 || T::rank(s.last(), x) <= 0 {
        s.push(x)
    } else {
        inserted::<T>(s.drop_last(), x).push(s.last())
    }
}

/// A list in ascending order; values of the same rank keep their order.
pub open spec fn sorted<T: Ranked>(s: Seq<T::V>) -> Seq<T::V>
    decreases s.len(),
{
    if s.len() == 0 {
        s
    } else {
        inserted::<T>(sorted::<T>(s.drop_last()), s.last())
    }
}

/// Whether a list is in ascending order.
pub open spec fn is_sorted<T: Ranked>(s: Seq<T::V>) -> bool {
    forall|i: int, j: int| 0 <= i <= j < s.len() ==> T::rank(#[trigger] s[i], #[trigger] s[j]) <= 0
}

/// Where [`inserted`] puts a value.
proof fn lemma_inserted_at<T: Ranked>(s: Seq<T::V>, x: T::V, p: int)
    requires
        0 <= p <= s.len(),
        p > 0 ==> T::rank(s[p - 1], x) <= 0,
        forall|k: int| p <= k < s.len() ==> T::rank(#[trigger] s[k], x) > 0,
    ensures
        inserted::<T>(s, x) == s.insert(p, x),
    decreases s.len() - p,
{
    if p == s.len() {
        assert(s.insert(p, x) == s.push(x));
    } else {
        assert(T::rank(s[s.len() - 1], x) > 0);
        assert forall|k: int| p <= k < s.drop_last().len() implies T::rank(
            #[trigger] s.drop_last()[k],
            x,
        ) > 0 by {
            assert(T::rank(s[k], x) > 0);
        }
        lemma_inserted_at::<T>(s.drop_last(), x, p);
        assert(s.drop_last().insert(p, x).push(s.last()) == s.insert(p, x));
    }
}

/// Inserting into a sorted list keeps it sorted and adds exactly one value.
proof fn lemma_inserted<T: Ranked>(s: Seq<T::V>, x: T::V)
    requires
        is_sorted::<T>(s),
    ensures
        is_sorted::<T>(inserted::<T>(s, x)),
        inserted::<T>(s, x).to_multiset() == s.to_multiset().insert(x),
    decreases s.len(),
{
    broadcast use vstd::seq_lib::group_to_multiset_ensures;

    let r = inserted::<T>(s, x);
    if s.len() == 0 || T::rank(s.last(), x) <= 0 {
        assert forall|i: int, j: int| 0 <= i <= j < r.len() implies T::rank(
            #[trigger] r[i],
            #[trigger] r[j],
        ) <= 0 by {
            T::rank_is_total(x, x);
            if j == s.len() && i < s.len() {
                assert(T::rank(s[i], s[s.len() - 1]) <= 0);
                T::rank_is_transitive(s[i], s.last(), x);
            }
        }
    } else {
        let t = s.drop_last();
        let y = s.last();
        assert forall|i: int, j: int| 0 <= i <= j < t.len() implies T::rank(
            #[trigger] t[i],
            #[trigger] t[j],
        ) <= 0 by {
            assert(T::rank(s[i], s[j]) <= 0);
        }
        lemma_inserted::<T>(t, x);
        let u = inserted::<T>(t, x);
        assert(r == u.push(y));
        assert(s == t.push(y));
        assert(r.to_multiset() == s.to_multiset().insert(x));
        T::rank_is_total(x, y);
        assert forall|i: int, j: int| 0 <= i <= j < r.len() implies T::rank(
            #[trigger] r[i],
            #[trigger] r[j],
        ) <= 0 by {
            T::rank_is_total(y, y);
            if j == u.len() && i < u.len() {
                assert(u.to_multiset().count(u[i]) > 0) by {
                    assert(u.contains(u[i]));
                }
                if u[i] != x {
                    assert(t.to_multiset().count(u[i]) > 0);
                    assert(t.contains(u[i]));
                    let k = choose|k: int| 0 <= k < t.len() && t[k] == u[i];
                    assert(T::rank(s[k], s[s.len() - 1]) <= 0);
                }
            } else if j < u.len() {
                assert(T::rank(u[i], u[j]) <= 0);
            }
        }
    }
}

/// Sorting puts a list in ascending order and neither adds nor loses values.
pub proof fn law_sorted<T: Ranked>(s: Seq<T::V>)
    ensures
        is_sorted::<T>(sorted::<T>(s)),
        sorted::<T>(s).to_multiset() == s.to_multiset(),
    decreases s.len(),
{
    broadcast use vstd::seq_lib::group_to_multiset_ensures;

    if s.len() > 0 {
        law_sorted::<T>(s.drop_last());
        lemma_inserted::<T>(sorted::<T>(s.drop_last()), s.last());
        assert(s == s.drop_last().push(s.last()));
    }
}

/// Sorting keeps the values.
pub proof fn lemma_sorted_contains<T: Ranked>(s: Seq<T::V>, x: T::V)
    ensures
        sorted::<T>(s).contains(x) <==> s.contains(x),
{
    broadcast use vstd::seq_lib::group_to_multiset_ensures;

    law_sorted::<T>(s);
    assert(sorted::<T>(s).contains(x) <==> sorted::<T>(s).to_multiset().count(x) > 0);
    assert(s.contains(x) <==> s.to_multiset().count(x) > 0);
}

/// Sorting keeps the length.
pub proof fn lemma_sorted_len<T: Ranked>(s: Seq<T::V>)
    ensures
        sorted::<T>(s).len() == s.len(),
{
    broadcast use vstd::seq_lib::group_to_multiset_ensures;

    law_sorted::<T>(s);
    assert(s.to_multiset().len() == s.len());
    assert(sorted::<T>(s).to_multiset().len() == sorted::<T>(s).len());
}

/// What holds of every value of a list holds of every value of it sorted.
pub proof fn lemma_sorted_all<T: Ranked>(s: Seq<T::V>, p: spec_fn(T::V) -> bool)
    requires
        forall|i: int| 0 <= i < s.len() ==> p(#[trigger] s[i]),
    ensures
        forall|i: int| 0 <= i < sorted::<T>(s).len() ==> p(#[trigger] sorted::<T>(s)[i]),
{
    broadcast use vstd::seq_lib::group_to_multiset_ensures;

    law_sorted::<T>(s);
    let r = sorted::<T>(s);
    assert forall|i: int| 0 <= i < r.len() implies p(#[trigger] r[i]) by {
        assert(r.contains(r[i]));
        assert(r.to_multiset().count(r[i]) > 0);
        assert(s.to_multiset().count(r[i]) > 0);
        assert(s.contains(r[i]));
    }
}

/// Sorting leaves the values of one rank in the order they had.
pub proof fn law_sorting_is_stable<T: Ranked>(s: Seq<T::V>, x: T::V)
    ensures
        ({
            let same = |y: T::V| T::rank(x, y) <= 0 && T::rank(y, x) <= 0;
            sorted::<T>(s).filter(same) == s.filter(same)
        }),
    decreases s.len(),
{
    let same = |y: T::V| T::rank(x, y) <= 0 && T::rank(y, x) <= 0;
    if s.len() > 0 {
        law_sorting_is_stable::<T>(s.drop_last(), x);
        lemma_inserted_stable::<T>(sorted::<T>(s.drop_last()), x, s.last());
        assert(s == s.drop_last().push(s.last()));
        lemma_filter_push(s.drop_last(), s.last(), same);
        lemma_filter_push(sorted::<T>(s.drop_last()), s.last(), same);
    }
}

/// A value that is inserted stands behind those of its rank.
proof fn lemma_inserted_stable<T: Ranked>(s: Seq<T::V>, x: T::V, z: T::V)
    ensures
        ({
            let same = |y: T::V| T::rank(x, y) <= 0 && T::rank(y, x) <= 0;
            inserted::<T>(s, z).filter(same) == s.push(z).filter(same)
        }),
    decreases s.len(),
{
    let same = |y: T::V| T::rank(x, y) <= 0 && T::rank(y, x) <= 0;
    if s.len() > 0 && T::rank(s.last(), z) > 0 {
        let t = s.drop_last();
        let y = s.last();
        lemma_inserted_stable::<T>(t, x, z);
        assert(s == t.push(y));
        lemma_filter_push(inserted::<T>(t, z), y, same);
        lemma_filter_push(t, z, same);
        lemma_filter_push(t, y, same);
        lemma_filter_push(s, z, same);
        if same(y) && same(z) {
            T::rank_is_transitive(y, x, z);
        }
    }
}

/// What a filter keeps of a list with one more value.
proof fn lemma_filter_push<A>(s: Seq<A>, x: A, p: spec_fn(A) -> bool)
    ensures
        s.push(x).filter(p) == (if p(x) {
            s.filter(p).push(x)
        } else {
            s.filter(p)
        }),
{
    reveal(Seq::filter);
    assert(s.push(x).drop_last() == s);
}

/// Sorts a list in ascending order; values of the same rank keep their order.
pub fn sort_stable<T: Ranked>(v: Vec<T>) -> (r: Vec<T>)
    ensures
        views(r@) == sorted::<T>(views(v@)),
{
    let ghost input = views(v@);
    let mut out = v;
    let mut i: usize = 0;
    assert(sorted::<T>(input.take(0)) + input.skip(0) == input);
    while i < out.len()
        invariant
            i <= out.len(),
            out.len() == input.len(),
            views(out@) == sorted::<T>(input.take(i as int)) + input.skip(i as int),
        decreases out.len() - i,
    {
        let ghost head = sorted::<T>(input.take(i as int));
        let ghost x = out@[i as int]@;
        proof {
            law_sorted::<T>(input.take(i as int));
            lemma_sorted_len::<T>(input.take(i as int));
            assert(views(out@)[i as int] == input[i as int]);
            assert(views(out@).take(i as int) == head);
        }
        let p: usize = insertion_point(&out, i);
        proof {
            lemma_inserted_at::<T>(head, x, p as int);
            assert(input.take(i + 1).drop_last() == input.take(i as int));
            assert(sorted::<T>(input.take(i + 1)) == head.insert(p as int, x));
            let before = views(out@);
            assert(head.insert(p as int, x) + input.skip(i + 1) == before.remove(i as int).insert(
                p as int,
                x,
            ));
            assert(views(out@.remove(i as int).insert(p as int, out@[i as int])) == before.remove(
                i as int,
            ).insert(p as int, x));
        }
        if p < i {
            let y = out.remove(i);
            out.insert(p, y);
        } else {
            assert(out@.remove(i as int).insert(i as int, out@[i as int]) == out@);
        }
        i += 1;
    }
    assert(input.take(input.len() as int) == input);
    assert(sorted::<T>(input) + input.skip(input.len() as int) == sorted::<T>(input));
    out
}

/// The place of the value at `i` among the sorted values before it.
fn insertion_point<T: Ranked>(v: &Vec<T>, i: usize) -> (p: usize)
    requires
        i < v.len(),
        is_sorted::<T>(views(v@).take(i as int)),
    ensures
        p <= i,
        p > 0 ==> T::rank(v@[p - 1]@, v@[i as int]@) <= 0,
        forall|k: int| p <= k < i ==> T::rank(#[trigger] views(v@)[k], v@[i as int]@) > 0,
{
    let ghost s = views(v@).take(i as int);
    let ghost x = v@[i as int]@;
    if i == 0 || v[i - 1].not_after(&v[i]) {
        return i;
    }
    let mut lo: usize = 0;
    let mut hi: usize = i - 1;
    assert forall|k: int| hi <= k < i implies T::rank(#[trigger] views(v@)[k], x) > 0 by {
        assert(views(v@)[k] == v@[i - 1]@);
    }
    while lo < hi
        invariant
            lo <= hi < i < v.len(),
            s == views(v@).take(i as int),
            is_sorted::<T>(s),
            x == v@[i as int]@,
            lo > 0 ==> T::rank(v@[lo - 1]@, x) <= 0,
            forall|k: int| hi <= k < i ==> T::rank(#[trigger] views(v@)[k], x) > 0,
        decreases hi - lo,
    {
        let mid: usize = lo + (hi - lo) / 2;
        if v[mid].not_after(&v[i]) {
            lo = mid + 1;
        } else {
            assert forall|k: int| mid <= k < i implies T::rank(#[trigger] views(v@)[k], x) > 0 by {
                assert(T::rank(s[mid as int], s[k]) <= 0);
                if T::rank(s[k], x) <= 0 {
                    T::rank_is_transitive(s[mid as int], s[k], x);
                }
            }
            hi = mid;
        }
    }
    lo
}

} // verus!
