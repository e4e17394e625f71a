//! The algebra of the operators: laws that hold of all relations.

use vstd::prelude::*;
use crate::element::ElementView;
use crate::relation::model::RelationView;

verus! {

/// Two relations over the same domains that agree on every pair of
/// positions are the same relation.
pub proof fn lemma_extensional(r: RelationView, s: RelationView)
    requires
        r.same_domain(s),
        forall|ix: int, iy: int| r.holds(ix, iy) == s.holds(ix, iy),
    ensures
        r == s,
{
    assert forall|p: (int, int)| r.pairs.contains(p) == s.pairs.contains(p) by {
        assert(r.holds(p.0, p.1) == s.holds(p.0, p.1));
    }
    assert(r.pairs =~= s.pairs);
}

/// The complement of the complement of a relation is the relation itself.
pub proof fn complement_involutive(r: RelationView)
    requires
        r.wf(),
    ensures
        r.complement().complement() == r,
{
    assert forall|ix: int, iy: int| r.complement().complement().holds(ix, iy) == r.holds(ix, iy) by {
        if r.holds(ix, iy) {
            assert(r.in_range(ix, iy));
        }
    }
    lemma_extensional(r.complement().complement(), r);
}

/// The converse of the converse of a relation is the relation itself.
pub proof fn converse_involutive(r: RelationView)
    requires
        r.wf(),
    ensures
        r.converse().converse() == r,
{
    assert forall|ix: int, iy: int| r.converse().converse().holds(ix, iy) == r.holds(ix, iy) by {
        if r.holds(ix, iy) {
            assert(r.in_range(ix, iy));
        }
    }
    lemma_extensional(r.converse().converse(), r);
}

/// Union does not depend on the order of its operands.
pub proof fn union_commutative(r: RelationView, s: RelationView)
    requires
        r.same_domain(s),
    ensures
        r.union(s) == s.union(r),
{
    lemma_extensional(r.union(s), s.union(r));
}

/// Union does not depend on how its operands are grouped.
pub proof fn union_associative(r: RelationView, s: RelationView, t: RelationView)
    requires
        r.same_domain(s),
    ensures
        r.union(s.union(t)) == r.union(s).union(t),
{
    lemma_extensional(r.union(s.union(t)), r.union(s).union(t));
}

/// The empty relation is neutral for union.
pub proof fn union_neutral(r: RelationView)
    requires
        r.wf(),
    ensures
        r.union(RelationView::empty(r.x, r.y)) == r,
{
    let u = r.union(RelationView::empty(r.x, r.y));
    assert forall|ix: int, iy: int| u.holds(ix, iy) == r.holds(ix, iy) by {
        if r.holds(ix, iy) {
            assert(r.in_range(ix, iy));
        }
    }
    lemma_extensional(u, r);
}

/// The universal relation absorbs every relation in a union.
pub proof fn union_absorbing(r: RelationView)
    ensures
        r.union(RelationView::universal(r.x, r.y)) == RelationView::universal(r.x, r.y),
{
    lemma_extensional(
        r.union(RelationView::universal(r.x, r.y)),
        RelationView::universal(r.x, r.y),
    );
}

/// The union of a relation with itself is the relation.
pub proof fn union_idempotent(r: RelationView)
    requires
        r.wf(),
    ensures
        r.union(r) == r,
{
    assert forall|ix: int, iy: int| r.union(r).holds(ix, iy) == r.holds(ix, iy) by {
        if r.holds(ix, iy) {
            assert(r.in_range(ix, iy));
        }
    }
    lemma_extensional(r.union(r), r);
}

/// Intersection does not depend on the order of its operands.
pub proof fn intersection_commutative(r: RelationView, s: RelationView)
    requires
        r.same_domain(s),
    ensures
        r.intersection(s) == s.intersection(r),
{
    lemma_extensional(r.intersection(s), s.intersection(r));
}

/// Intersection does not depend on how its operands are grouped.
pub proof fn intersection_associative(r: RelationView, s: RelationView, t: RelationView)
    requires
        r.same_domain(s),
    ensures
        r.intersection(s.intersection(t)) == r.intersection(s).intersection(t),
{
    lemma_extensional(r.intersection(s.intersection(t)), r.intersection(s).intersection(t));
}

/// The universal relation is neutral for intersection.
pub proof fn intersection_neutral(r: RelationView)
    requires
        r.wf(),
    ensures
        r.intersection(RelationView::universal(r.x, r.y)) == r,
{
    let u = r.intersection(RelationView::universal(r.x, r.y));
    assert forall|ix: int, iy: int| u.holds(ix, iy) == r.holds(ix, iy) by {
        if r.holds(ix, iy) {
            assert(r.in_range(ix, iy));
        }
    }
    lemma_extensional(u, r);
}

/// The empty relation absorbs every relation in an intersection.
pub proof fn intersection_absorbing(r: RelationView)
    ensures
        r.intersection(RelationView::empty(r.x, r.y)) == RelationView::empty(r.x, r.y),
{
    lemma_extensional(
        r.intersection(RelationView::empty(r.x, r.y)),
        RelationView::empty(r.x, r.y),
    );
}

/// The intersection of a relation with itself is the relation.
pub proof fn intersection_idempotent(r: RelationView)
    requires
        r.wf(),
    ensures
        r.intersection(r) == r,
{
    assert forall|ix: int, iy: int| r.intersection(r).holds(ix, iy) == r.holds(ix, iy) by {
        if r.holds(ix, iy) {
            assert(r.in_range(ix, iy));
        }
    }
    lemma_extensional(r.intersection(r), r);
}

/// Union distributes over intersection, from the left and from the right.
pub proof fn distributivity_union(a: RelationView, b: RelationView, c: RelationView)
    requires
        a.same_domain(b),
        a.same_domain(c),
    ensures
        a.union(b.intersection(c)) == a.union(b).intersection(a.union(c)),
        a.intersection(b).union(c) == a.union(c).intersection(b.union(c)),
{
    lemma_extensional(a.union(b.intersection(c)), a.union(b).intersection(a.union(c)));
    lemma_extensional(a.intersection(b).union(c), a.union(c).intersection(b.union(c)));
}

/// Intersection distributes over union, from the left and from the right.
pub proof fn distributivity_intersection(a: RelationView, b: RelationView, c: RelationView)
    requires
        a.same_domain(b),
        a.same_domain(c),
    ensures
        a.intersection(b.union(c)) == a.intersection(b).union(a.intersection(c)),
        a.union(b).intersection(c) == a.intersection(c).union(b.intersection(c)),
{
    lemma_extensional(a.intersection(b.union(c)), a.intersection(b).union(a.intersection(c)));
    lemma_extensional(a.union(b).intersection(c), a.intersection(c).union(b.intersection(c)));
}

/// De Morgan: the complement of a union is the intersection of the
/// complements, and the complement of an intersection is the union of the
/// complements.
pub proof fn de_morgan(a: RelationView, b: RelationView)
    requires
        a.same_domain(b),
    ensures
        a.union(b).complement() == a.complement().intersection(b.complement()),
        a.intersection(b).complement() == a.complement().union(b.complement()),
{
    lemma_extensional(a.union(b).complement(), a.complement().intersection(b.complement()));
    lemma_extensional(a.intersection(b).complement(), a.complement().union(b.complement()));
}

/// Composition does not depend on how its operands are grouped.
pub proof fn concatenation_associative(a: RelationView, b: RelationView, c: RelationView)
    requires
        a.wf(),
        b.wf(),
        c.wf(),
        a.y == b.x,
        b.y == c.x,
    ensures
        a.concatenation(b.concatenation(c)) == a.concatenation(b).concatenation(c),
{
    let l = a.concatenation(b.concatenation(c));
    let r = a.concatenation(b).concatenation(c);
    assert forall|ix: int, iz: int| l.holds(ix, iz) == r.holds(ix, iz) by {
        if l.holds(ix, iz) {
            let j = choose|j: int|
                0 <= j < a.y.len() && a.holds(ix, j) && #[trigger] b.concatenation(c).holds(j, iz);
            let k = choose|k: int| 0 <= k < b.y.len() && b.holds(j, k) && #[trigger] c.holds(k, iz);
            assert(a.linked(b, ix, k));
            assert(a.concatenation(b).holds(ix, k));
            assert(a.concatenation(b).linked(c, ix, iz));
        }
        if r.holds(ix, iz) {
            let k = choose|k: int|
                0 <= k < b.y.len() && a.concatenation(b).holds(ix, k) && #[trigger] c.holds(k, iz);
            let j = choose|j: int| 0 <= j < a.y.len() && a.holds(ix, j) && #[trigger] b.holds(j, k);
            assert(b.linked(c, j, iz));
            assert(b.concatenation(c).holds(j, iz));
            assert(a.linked(b.concatenation(c), ix, iz));
        }
    }
    lemma_extensional(l, r);
}

/// Composing any relation with an empty relation, on either side, gives
/// an empty relation.
pub proof fn concatenation_absorbing(r: RelationView, z: Seq<ElementView>)
    ensures
        r.concatenation(RelationView::empty(r.y, z)) == RelationView::empty(r.x, z),
        RelationView::empty(z, r.x).concatenation(r) == RelationView::empty(z, r.y),
{
    lemma_extensional(r.concatenation(RelationView::empty(r.y, z)), RelationView::empty(r.x, z));
    lemma_extensional(RelationView::empty(z, r.x).concatenation(r), RelationView::empty(z, r.y));
}

/// Composition distributes over union, from the left and from the right.
pub proof fn distributivity_concatenation(a: RelationView, b: RelationView, c: RelationView)
    requires
        a.wf(),
        b.wf(),
        c.wf(),
    ensures
        b.same_domain(c) ==> a.concatenation(b.union(c)) == a.concatenation(b).union(
            a.concatenation(c),
        ),
        a.same_domain(b) ==> a.union(b).concatenation(c) == a.concatenation(c).union(
            b.concatenation(c),
        ),
{
    if b.same_domain(c) {
        let l = a.concatenation(b.union(c));
        let r = a.concatenation(b).union(a.concatenation(c));
        assert forall|ix: int, iz: int| l.holds(ix, iz) == r.holds(ix, iz) by {
            if l.holds(ix, iz) {
                let j = choose|j: int|
                    0 <= j < a.y.len() && a.holds(ix, j) && #[trigger] b.union(c).holds(j, iz);
                if b.holds(j, iz) {
                    assert(a.linked(b, ix, iz));
                } else {
                    assert(a.linked(c, ix, iz));
                }
            }
            if a.concatenation(b).holds(ix, iz) {
                let j = choose|j: int| 0 <= j < a.y.len() && a.holds(ix, j) && #[trigger] b.holds(j, iz);
                assert(b.in_range(j, iz));
                assert(b.union(c).holds(j, iz));
                assert(a.linked(b.union(c), ix, iz));
            }
            if a.concatenation(c).holds(ix, iz) {
                let j = choose|j: int| 0 <= j < a.y.len() && a.holds(ix, j) && #[trigger] c.holds(j, iz);
                assert(c.in_range(j, iz));
                assert(b.union(c).holds(j, iz));
                assert(a.linked(b.union(c), ix, iz));
            }
        }
        lemma_extensional(l, r);
    }
    if a.same_domain(b) {
        let l = a.union(b).concatenation(c);
        let r = a.concatenation(c).union(b.concatenation(c));
        assert forall|ix: int, iz: int| l.holds(ix, iz) == r.holds(ix, iz) by {
            if l.holds(ix, iz) {
                let j = choose|j: int|
                    0 <= j < a.y.len() && a.union(b).holds(ix, j) && #[trigger] c.holds(j, iz);
                if a.holds(ix, j) {
                    assert(a.linked(c, ix, iz));
                } else {
                    assert(b.linked(c, ix, iz));
                }
            }
            if a.concatenation(c).holds(ix, iz) {
                let j = choose|j: int| 0 <= j < a.y.len() && a.holds(ix, j) && #[trigger] c.holds(j, iz);
                assert(a.in_range(ix, j));
                assert(a.union(b).holds(ix, j));
                assert(a.union(b).linked(c, ix, iz));
            }
            if b.concatenation(c).holds(ix, iz) {
                let j = choose|j: int| 0 <= j < b.y.len() && b.holds(ix, j) && #[trigger] c.holds(j, iz);
                assert(b.in_range(ix, j));
                assert(a.union(b).holds(ix, j));
                assert(a.union(b).linked(c, ix, iz));
            }
        }
        lemma_extensional(l, r);
    }
}

/// The converse of a composition is the composition of the converses in
/// the opposite order; the converse of a union or of an intersection is
/// the union or the intersection of the converses.
pub proof fn distributivity_converse(a: RelationView, b: RelationView)
    ensures
        a.wf() && b.wf() && a.y == b.x ==> a.concatenation(b).converse()
            == b.converse().concatenation(a.converse()),
        a.same_domain(b) ==> a.union(b).converse() == a.converse().union(b.converse()),
        a.same_domain(b) ==> a.intersection(b).converse() == a.converse().intersection(
            b.converse(),
        ),
{
    if a.wf() && b.wf() && a.y == b.x {
        let l = a.concatenation(b).converse();
        let r = b.converse().concatenation(a.converse());
        assert forall|iz: int, ix: int| l.holds(iz, ix) == r.holds(iz, ix) by {
            if l.holds(iz, ix) {
                let j = choose|j: int| 0 <= j < a.y.len() && a.holds(ix, j) && #[trigger] b.holds(j, iz);
                assert(a.in_range(ix, j));
                assert(b.converse().holds(iz, j));
                assert(a.converse().holds(j, ix));
                assert(b.converse().linked(a.converse(), iz, ix));
            }
            if r.holds(iz, ix) {
                let j = choose|j: int|
                    0 <= j < b.converse().y.len() && b.converse().holds(iz, j)
                        && #[trigger] a.converse().holds(j, ix);
                assert(a.linked(b, ix, iz));
            }
        }
        lemma_extensional(l, r);
    }
    if a.same_domain(b) {
        lemma_extensional(a.union(b).converse(), a.converse().union(b.converse()));
        lemma_extensional(a.intersection(b).converse(), a.converse().intersection(b.converse()));
    }
}

/// The compound properties are the conjunctions of the properties they
/// are made of.
pub proof fn compound_properties(r: RelationView)
    ensures
        r.bijective() == (r.injective() && r.surjective()),
        r.function() == (r.functional() && r.left_total()),
        r.asymmetric() == (r.irreflexive() && r.antisymmetric()),
        r.preorder() == (r.reflexive() && r.transitive()),
        r.partial_order() == (r.preorder() && r.antisymmetric()),
        r.equivalent() == (r.preorder() && r.symmetric()),
{
}

} // verus!
