//! Picking the members of a sequence by their positions.

use vstd::prelude::*;
use crate::element::{ascending, element_lt, element_wf, set_wf, ElementView};

verus! {

/// The members of `s` at the positions that `keep` accepts, in their order.
pub open spec fn select<A>(s: Seq<A>, keep: spec_fn(int) -> bool) -> Seq<A>
    decreases s.len(),
{
    if s.len() == 0 {
        Seq::empty()
    } else if keep(s.len() - 1) {
        select(s.drop_last(), keep).push(s.last())
    } else {
        select(s.drop_last(), keep)
    }
}

/// The position in `s` of the member at position `k` of the selection.
pub open spec fn origin<A>(s: Seq<A>, keep: spec_fn(int) -> bool, k: int) -> int
    decreases s.len(),
{
    if s.len() == 0 {
        0
    } else if keep(s.len() - 1) && k == select(s.drop_last(), keep).len() {
        s.len() - 1
    } else {
        origin(s.drop_last(), keep, k)
    }
}

/// Each selected member comes from an accepted position of `s`.
pub proof fn lemma_select_origin<A>(s: Seq<A>, keep: spec_fn(int) -> bool, k: int)
    requires
        0 <= k < select(s, keep).len(),
    ensures
        0 <= origin(s, keep, k) < s.len(),
        keep(origin(s, keep, k)),
        select(s, keep)[k] == s[origin(s, keep, k)],
    decreases s.len(),
{
    let rest = select(s.drop_last(), keep);
    if !(keep(s.len() - 1) && k == rest.len()) {
        lemma_select_origin(s.drop_last(), keep, k);
    }
}

/// Members further back in the selection come from further back in `s`.
pub proof fn lemma_select_monotone<A>(s: Seq<A>, keep: spec_fn(int) -> bool, a: int, b: int)
    requires
        0 <= a < b < select(s, keep).len(),
    ensures
        origin(s, keep, a) < origin(s, keep, b),
    decreases s.len(),
{
    let rest = select(s.drop_last(), keep);
    if keep(s.len() - 1) && b == rest.len() {
        lemma_select_origin(s.drop_last(), keep, a);
    } else {
        lemma_select_monotone(s.drop_last(), keep, a, b);
    }
}

/// Two tests that agree on the positions of `s` select the same members.
pub proof fn lemma_select_ext<A>(s: Seq<A>, keep1: spec_fn(int) -> bool, keep2: spec_fn(int) -> bool)
    requires
        forall|i: int| 0 <= i < s.len() ==> #[trigger] keep1(i) == keep2(i),
    ensures
        select(s, keep1) == select(s, keep2),
    decreases s.len(),
{
    if s.len() > 0 {
        lemma_select_ext(s.drop_last(), keep1, keep2);
    }
}

/// Selecting from the first `n + 1` members extends the selection from
/// the first `n` by the member at `n`, if that position is accepted.
pub proof fn lemma_select_step<A>(s: Seq<A>, keep: spec_fn(int) -> bool, n: int)
    requires
        0 <= n < s.len(),
    ensures
        select(s.take(n + 1), keep) == if keep(n) {
            select(s.take(n), keep).push(s[n])
        } else {
            select(s.take(n), keep)
        },
{
    assert(s.take(n + 1).drop_last() =~= s.take(n));
}

/// A selection from an ordered set is an ordered set.
pub proof fn lemma_select_wf(s: Seq<ElementView>, keep: spec_fn(int) -> bool)
    requires
        set_wf(s),
    ensures
        set_wf(select(s, keep)),
{
    let t = select(s, keep);
    assert forall|a: int, b: int| 0 <= a < b < t.len() implies element_lt(
        t[a],
        t[b],
    ) by {
        lemma_select_origin(s, keep, a);
        lemma_select_origin(s, keep, b);
        lemma_select_monotone(s, keep, a, b);
        assert(element_lt(s[origin(s, keep, a)], s[origin(s, keep, b)]));
    }
    assert(ascending(t));
    assert forall|k: int| 0 <= k < t.len() implies element_wf(#[trigger] t[k]) by {
        lemma_select_origin(s, keep, k);
        assert(element_wf(s[origin(s, keep, k)]));
    }
}

} // verus!
