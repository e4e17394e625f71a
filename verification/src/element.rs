//! Elements of ordered sets and the total order that sorts them.

use vstd::prelude::*;

verus! {

/// The mathematical value of a set element: a string of characters or a
/// nested ordered set, given as the sequence of its members in ascending
/// order.
pub enum ElementView {
    Str(Seq<char>),
    Nested(Seq<ElementView>),
}

/// The first position at or after `i` where `x` and `y` differ or one of
/// them ends.
pub open spec fn first_difference_from<A>(x: Seq<A>, y: Seq<A>, i: int) -> int
    decreases x.len() - i,
{
    if 0 <= i < x.len() && i < y.len() && x[i] == y[i] {
        first_difference_from(x, y, i + 1)
    } else {
        i
    }
}

/// The first position where `x` and `y` differ or one of them ends.
pub open spec fn first_difference<A>(x: Seq<A>, y: Seq<A>) -> int {
    first_difference_from(x, y, 0)
}

/// Lexicographic order of sequences whose members `lt` orders: decided by
/// the members at the first difference, and by the lengths where one
/// sequence is the beginning of the other.
pub open spec fn lex_lt<A>(x: Seq<A>, y: Seq<A>, lt: spec_fn(A, A) -> bool) -> bool {
    let k = first_difference(x, y);
    if 0 <= k < x.len() && k < y.len() {
        lt(x[k], y[k])
    } else {
        x.len() < y.len()
    }
}

/// The order of characters by code point.
pub open spec fn char_lt(a: char, b: char) -> bool {
    (a as int) < (b as int)
}

/// Lexicographic order of strings by the code points of their characters.
pub open spec fn str_lt(x: Seq<char>, y: Seq<char>) -> bool {
    lex_lt(x, y, |a: char, b: char| char_lt(a, b))
}

/// The strict total order on elements: every string precedes every nested
/// set, strings are ordered lexicographically by code point, and nested
/// sets lexicographically by their members, which this same order orders
/// (`lex_lt` written out, so that the recursion is plain to see).
pub open spec fn element_lt(a: ElementView, b: ElementView) -> bool
    decreases a,
{
    match (a, b) {
        (ElementView::Str(x), ElementView::Str(y)) => str_lt(x, y),
        (ElementView::Str(_), ElementView::Nested(_)) => true,
        (ElementView::Nested(_), ElementView::Str(_)) => false,
        (ElementView::Nested(x), ElementView::Nested(y)) => {
            let k = first_difference(x, y);
            if 0 <= k < x.len() && k < y.len() {
                element_lt(x[k], y[k])
            } else {
                x.len() < y.len()
            }
        },
    }
}

/// Each member precedes all that follow it.
pub open spec fn ascending(s: Seq<ElementView>) -> bool {
    forall|i: int, j: int| 0 <= i < j < s.len() ==> element_lt(s[i], s[j])
}

/// Validity of an element: every nested set, at any depth, is strictly
/// ascending, so that it holds no member twice.
pub open spec fn element_wf(a: ElementView) -> bool
    decreases a,
{
    match a {
        ElementView::Str(_) => true,
        ElementView::Nested(s) => ascending(s) && forall|i: int|
            0 <= i < s.len() ==> element_wf(#[trigger] s[i]),
    }
}

/// Validity of the members of an ordered set: strictly ascending, each
/// member valid.
pub open spec fn set_wf(s: Seq<ElementView>) -> bool {
    element_wf(ElementView::Nested(s))
}

/// How an element is written: a string as it is, a nested set as its
/// members between braces with one space between neighbours.
pub open spec fn element_text(a: ElementView) -> Seq<char>
    decreases a, 0nat,
{
    match a {
        ElementView::Str(s) => s,
        ElementView::Nested(m) => "{"@ + members_text(m, m.len()) + "}"@,
    }
}

/// How the first `n` members of `m` are written, one space between
/// neighbours.
pub open spec fn members_text(m: Seq<ElementView>, n: nat) -> Seq<char>
    decreases m, n,
{
    if n == 0 || n > m.len() {
        Seq::empty()
    } else if n == 1 {
        element_text(m[0])
    } else {
        members_text(m, (n - 1) as nat) + " "@ + element_text(m[n - 1])
    }
}

/// What `first_difference` finds: a position up to which the sequences
/// agree and at which they differ or one of them ends.
pub proof fn lemma_first_difference<A>(x: Seq<A>, y: Seq<A>)
    ensures
        0 <= first_difference(x, y) <= x.len(),
        first_difference(x, y) <= y.len(),
        forall|i: int| 0 <= i < first_difference(x, y) ==> x[i] == y[i],
        first_difference(x, y) < x.len() && first_difference(x, y) < y.len() ==> x[first_difference(
            x,
            y,
        )] != y[first_difference(x, y)],
{
    lemma_first_difference_from(x, y, 0);
}

/// The same, for a search that starts at position `i`.
pub proof fn lemma_first_difference_from<A>(x: Seq<A>, y: Seq<A>, i: int)
    requires
        0 <= i <= x.len(),
        i <= y.len(),
    ensures
        i <= first_difference_from(x, y, i) <= x.len(),
        first_difference_from(x, y, i) <= y.len(),
        forall|j: int| i <= j < first_difference_from(x, y, i) ==> x[j] == y[j],
        first_difference_from(x, y, i) < x.len() && first_difference_from(x, y, i) < y.len()
            ==> x[first_difference_from(x, y, i)] != y[first_difference_from(x, y, i)],
    decreases x.len() - i,
{
    if i < x.len() && i < y.len() && x[i] == y[i] {
        lemma_first_difference_from(x, y, i + 1);
    }
}

/// A position up to which two sequences agree, and at which they differ or
/// one of them ends, is their first difference.
pub proof fn lemma_first_difference_is<A>(x: Seq<A>, y: Seq<A>, k: int)
    requires
        0 <= k <= x.len(),
        k <= y.len(),
        forall|i: int| 0 <= i < k ==> x[i] == y[i],
        k < x.len() && k < y.len() ==> x[k] != y[k],
    ensures
        first_difference(x, y) == k,
{
    lemma_first_difference_reaches(x, y, 0, k);
}

/// The search from any position before `k` ends at `k`.
pub proof fn lemma_first_difference_reaches<A>(x: Seq<A>, y: Seq<A>, i: int, k: int)
    requires
        0 <= i <= k <= x.len(),
        k <= y.len(),
        forall|j: int| 0 <= j < k ==> x[j] == y[j],
        k < x.len() && k < y.len() ==> x[k] != y[k],
    ensures
        first_difference_from(x, y, i) == k,
    decreases k - i,
{
    if i < k {
        lemma_first_difference_reaches(x, y, i + 1, k);
    }
}

/// No sequence precedes itself.
pub proof fn lemma_lex_irreflexive<A>(x: Seq<A>, lt: spec_fn(A, A) -> bool)
    ensures
        !lex_lt(x, x, lt),
{
    lemma_first_difference_is(x, x, x.len() as int);
}

/// Where the order of the members is transitive and relates no equal
/// members, the lexicographic order is transitive.
pub proof fn lemma_lex_transitive<A>(x: Seq<A>, y: Seq<A>, z: Seq<A>, lt: spec_fn(A, A) -> bool)
    requires
        lex_lt(x, y, lt),
        lex_lt(y, z, lt),
        forall|i: int|
            0 <= i < x.len() && i < y.len() && i < z.len() && lt(x[i], y[i]) && lt(y[i], z[i])
                ==> lt(x[i], z[i]),
        forall|i: int| 0 <= i < x.len() && i < z.len() && lt(x[i], z[i]) ==> x[i] != z[i],
    ensures
        lex_lt(x, z, lt),
{
    lemma_first_difference(x, y);
    lemma_first_difference(y, z);
    let k1 = first_difference(x, y);
    let k2 = first_difference(y, z);
    let k = if k1 < k2 {
        k1
    } else {
        k2
    };
    assert forall|i: int| 0 <= i < k implies x[i] == z[i] by {
        assert(x[i] == y[i]);
        assert(y[i] == z[i]);
    }
    if k1 < k2 {
        assert(y[k1] == z[k1]);
    } else if k2 < k1 {
        assert(x[k2] == y[k2]);
    }
    lemma_first_difference_is(x, z, k);
}

/// Where the order of the members relates any two different members one
/// way or the other, so does the lexicographic order.
pub proof fn lemma_lex_total<A>(x: Seq<A>, y: Seq<A>, lt: spec_fn(A, A) -> bool)
    requires
        x != y,
        forall|i: int|
            0 <= i < x.len() && i < y.len() && x[i] != y[i] ==> lt(x[i], y[i]) || lt(y[i], x[i]),
    ensures
        lex_lt(x, y, lt) || lex_lt(y, x, lt),
{
    lemma_first_difference(x, y);
    let k = first_difference(x, y);
    lemma_first_difference_is(y, x, k);
    if x.len() == y.len() && k == x.len() {
        assert(x =~= y);
    }
}

/// Of two different characters one precedes the other.
pub proof fn lemma_char_lt_total(a: char, b: char)
    requires
        a != b,
    ensures
        char_lt(a, b) || char_lt(b, a),
{
}

/// No element precedes itself.
pub proof fn lemma_element_lt_irreflexive(a: ElementView)
    ensures
        !element_lt(a, a),
{
    match a {
        ElementView::Str(x) => {
            lemma_lex_irreflexive(x, |a: char, b: char| char_lt(a, b));
        },
        ElementView::Nested(x) => {
            lemma_first_difference_is(x, x, x.len() as int);
        },
    }
}

/// The order of elements is transitive.
pub proof fn lemma_element_lt_transitive(a: ElementView, b: ElementView, c: ElementView)
    requires
        element_lt(a, b),
        element_lt(b, c),
    ensures
        element_lt(a, c),
    decreases a,
{
    match (a, b, c) {
        (ElementView::Str(x), ElementView::Str(y), ElementView::Str(z)) => {
            lemma_lex_transitive(x, y, z, |a: char, b: char| char_lt(a, b));
        },
        (ElementView::Nested(x), ElementView::Nested(y), ElementView::Nested(z)) => {
            let lt = |a: ElementView, b: ElementView| element_lt(a, b);
            assert(element_lt(a, b) == lex_lt(x, y, lt));
            assert(element_lt(b, c) == lex_lt(y, z, lt));
            assert(element_lt(a, c) == lex_lt(x, z, lt));
            assert forall|i: int|
                0 <= i < x.len() && i < y.len() && i < z.len() && lt(x[i], y[i]) && lt(
                    y[i],
                    z[i],
                ) implies lt(x[i], z[i]) by {
                lemma_element_lt_transitive(x[i], y[i], z[i]);
            }
            assert forall|i: int| 0 <= i < x.len() && i < z.len() && lt(x[i], z[i]) implies x[i]
                != z[i] by {
                lemma_element_lt_irreflexive(x[i]);
            }
            lemma_lex_transitive(x, y, z, lt);
        },
        _ => {},
    }
}

/// Of two different elements one precedes the other.
pub proof fn lemma_element_lt_total(a: ElementView, b: ElementView)
    requires
        a != b,
    ensures
        element_lt(a, b) || element_lt(b, a),
    decreases a,
{
    match (a, b) {
        (ElementView::Str(x), ElementView::Str(y)) => {
            assert(x != y);
            let lt = |a: char, b: char| char_lt(a, b);
            assert forall|i: int| 0 <= i < x.len() && i < y.len() && x[i] != y[i] implies lt(
                x[i],
                y[i],
            ) || lt(y[i], x[i]) by {
                lemma_char_lt_total(x[i], y[i]);
            }
            lemma_lex_total(x, y, lt);
        },
        (ElementView::Nested(x), ElementView::Nested(y)) => {
            let lt = |a: ElementView, b: ElementView| element_lt(a, b);
            assert(element_lt(a, b) == lex_lt(x, y, lt));
            assert(element_lt(b, a) == lex_lt(y, x, lt));
            assert forall|i: int| 0 <= i < x.len() && i < y.len() && x[i] != y[i] implies lt(
                x[i],
                y[i],
            ) || lt(y[i], x[i]) by {
                lemma_element_lt_total(x[i], y[i]);
            }
            lemma_lex_total(x, y, lt);
        },
        _ => {},
    }
}

/// In a strictly ascending sequence a member stands at one position only.
pub proof fn lemma_sorted_distinct(s: Seq<ElementView>, i: int, j: int)
    requires
        set_wf(s),
        0 <= i < s.len(),
        0 <= j < s.len(),
        s[i] == s[j],
    ensures
        i == j,
{
    lemma_element_lt_irreflexive(s[i]);
    if i < j {
        assert(element_lt(s[i], s[j]));
    } else if j < i {
        assert(element_lt(s[j], s[i]));
    }
}

/// An ordered set is determined by its members: two strictly ascending
/// sequences that hold the same elements are the same sequence.
pub proof fn lemma_ordered_set_unique(a: Seq<ElementView>, b: Seq<ElementView>)
    requires
        set_wf(a),
        set_wf(b),
        a.to_set() == b.to_set(),
    ensures
        a == b,
    decreases a.len(),
{
    assert forall|i: int, j: int| 0 <= i < a.len() && 0 <= j < a.len() && i != j implies a[i]
        != a[j] by {
        if a[i] == a[j] {
            lemma_sorted_distinct(a, i, j);
        }
    }
    assert forall|i: int, j: int| 0 <= i < b.len() && 0 <= j < b.len() && i != j implies b[i]
        != b[j] by {
        if b[i] == b[j] {
            lemma_sorted_distinct(b, i, j);
        }
    }
    a.unique_seq_to_set();
    b.unique_seq_to_set();
    if a.len() == 0 {
        assert(a =~= b);
    } else {
        let x = a.last();
        let y = b.last();
        assert(a.to_set().contains(x));
        assert(b.contains(x));
        let j = choose|j: int| 0 <= j < b.len() && b[j] == x;
        assert(b.to_set().contains(y));
        assert(a.contains(y));
        let i = choose|i: int| 0 <= i < a.len() && a[i] == y;
        if x != y {
            assert(element_lt(b[j], b[b.len() - 1]));
            assert(element_lt(a[i], a[a.len() - 1]));
            lemma_element_lt_transitive(x, y, x);
            lemma_element_lt_irreflexive(x);
        }
        let a0 = a.drop_last();
        let b0 = b.drop_last();
        assert(ascending(a0));
        assert(ascending(b0));
        assert forall|k: int| 0 <= k < a0.len() implies element_wf(#[trigger] a0[k]) by {
            assert(element_wf(a[k]));
        }
        assert forall|k: int| 0 <= k < b0.len() implies element_wf(#[trigger] b0[k]) by {
            assert(element_wf(b[k]));
        }
        assert forall|e: ElementView| a0.to_set().contains(e) == b0.to_set().contains(e) by {
            if a0.contains(e) {
                let k = choose|k: int| 0 <= k < a0.len() && a0[k] == e;
                assert(a[k] == e);
                assert(a.to_set().contains(e));
                assert(b.contains(e));
                let m = choose|m: int| 0 <= m < b.len() && b[m] == e;
                assert(b0[m] == e);
            }
            if b0.contains(e) {
                let k = choose|k: int| 0 <= k < b0.len() && b0[k] == e;
                assert(b[k] == e);
                assert(b.to_set().contains(e));
                assert(a.contains(e));
                let m = choose|m: int| 0 <= m < a.len() && a[m] == e;
                assert(a0[m] == e);
            }
        }
        assert(a0.to_set() =~= b0.to_set());
        lemma_ordered_set_unique(a0, b0);
        assert(a =~= a0.push(x));
        assert(b =~= b0.push(y));
    }
}

} // verus!
