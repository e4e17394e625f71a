//! The mathematical model of a relation: two ordered domains and the set
//! of index pairs that are related.

use vstd::prelude::*;
use crate::element::{lemma_sorted_distinct, set_wf, ElementView};
use crate::select::select;

verus! {

/// A relation between the members of two ordered sets `x` and `y`, as the
/// set of pairs `(ix, iy)` of positions whose members are related.
pub struct RelationView {
    pub x: Seq<ElementView>,
    pub y: Seq<ElementView>,
    pub pairs: Set<(int, int)>,
}

impl RelationView {
    /// Whether `(ix, iy)` is a pair of positions of the two domains.
    pub open spec fn in_range(self, ix: int, iy: int) -> bool {
        0 <= ix < self.x.len() && 0 <= iy < self.y.len()
    }

    /// Whether the members at positions `ix` and `iy` are related.
    pub open spec fn holds(self, ix: int, iy: int) -> bool {
        self.pairs.contains((ix, iy))
    }

    /// Validity: both domains are ordered sets and only positions of the
    /// domains are related.
    pub open spec fn wf(self) -> bool {
        &&& set_wf(self.x)
        &&& set_wf(self.y)
        &&& forall|ix: int, iy: int| #[trigger] self.holds(ix, iy) ==> self.in_range(ix, iy)
    }

    /// The relation over `x` and `y` that relates the positions which
    /// `cell` accepts.
    pub open spec fn from_fn(
        x: Seq<ElementView>,
        y: Seq<ElementView>,
        cell: spec_fn(int, int) -> bool,
    ) -> RelationView {
        RelationView {
            x,
            y,
            pairs: Set::new(
                |p: (int, int)| 0 <= p.0 < x.len() && 0 <= p.1 < y.len() && cell(p.0, p.1),
            ),
        }
    }

    /// The relation that relates nothing.
    pub open spec fn empty(x: Seq<ElementView>, y: Seq<ElementView>) -> RelationView {
        RelationView::from_fn(x, y, |ix: int, iy: int| false)
    }

    /// The relation that relates every pair of positions.
    pub open spec fn universal(x: Seq<ElementView>, y: Seq<ElementView>) -> RelationView {
        RelationView::from_fn(x, y, |ix: int, iy: int| true)
    }

    /// The relation on one domain that relates each position to itself.
    pub open spec fn identity(x: Seq<ElementView>) -> RelationView {
        RelationView::from_fn(x, x, |ix: int, iy: int| ix == iy)
    }

    /// The pairs of the domain that are not related.
    pub open spec fn complement(self) -> RelationView {
        RelationView::from_fn(self.x, self.y, |ix: int, iy: int| !self.holds(ix, iy))
    }

    /// The relation read from `y` to `x`.
    pub open spec fn converse(self) -> RelationView {
        RelationView::from_fn(self.y, self.x, |ix: int, iy: int| self.holds(iy, ix))
    }

    /// The pairs related by `self` or by `other`.
    pub open spec fn union(self, other: RelationView) -> RelationView {
        RelationView::from_fn(
            self.x,
            self.y,
            |ix: int, iy: int| self.holds(ix, iy) || other.holds(ix, iy),
        )
    }

    /// The pairs related by `self` and by `other`.
    pub open spec fn intersection(self, other: RelationView) -> RelationView {
        RelationView::from_fn(
            self.x,
            self.y,
            |ix: int, iy: int| self.holds(ix, iy) && other.holds(ix, iy),
        )
    }

    /// Whether some position of the middle domain links `ix` to `iz`.
    pub open spec fn linked(self, other: RelationView, ix: int, iz: int) -> bool {
        exists|iy: int| 0 <= iy < self.y.len() && self.holds(ix, iy) && #[trigger] other.holds(iy, iz)
    }

    /// Relational composition, `self` then `other`: `ix` is related to `iz`
    /// when some `iy` has `self` relate `ix` to `iy` and `other` relate
    /// `iy` to `iz`.
    pub open spec fn concatenation(self, other: RelationView) -> RelationView {
        RelationView::from_fn(self.x, other.y, |ix: int, iz: int| self.linked(other, ix, iz))
    }

    /// Whether both relations range over the same pair of domains.
    pub open spec fn same_domain(self, other: RelationView) -> bool {
        self.x == other.x && self.y == other.y
    }
}

/// For each member of `domain`, whether `set` holds it.
pub open spec fn membership(domain: Seq<ElementView>, set: Seq<ElementView>) -> Seq<bool> {
    Seq::new(domain.len(), |i: int| set.contains(domain[i]))
}

/// The position of `a` in `domain`, which holds it.
pub open spec fn position_of(domain: Seq<ElementView>, a: ElementView) -> int {
    choose|i: int| 0 <= i < domain.len() && domain[i] == a
}

/// In an ordered set the position of a member is the only position where
/// it stands.
pub proof fn lemma_position_of(domain: Seq<ElementView>, i: int)
    requires
        set_wf(domain),
        0 <= i < domain.len(),
    ensures
        position_of(domain, domain[i]) == i,
{
    let j = position_of(domain, domain[i]);
    lemma_sorted_distinct(domain, i, j);
}

/// What a relation says of chosen members of its domains.
impl RelationView {
    /// Some chosen member of the first domain is related to position `iy`.
    pub open spec fn column_any(self, chosen: Seq<bool>, iy: int) -> bool {
        exists|ix: int| 0 <= ix < self.x.len() && chosen[ix] && #[trigger] self.holds(ix, iy)
    }

    /// Every chosen member of the first domain is related to position `iy`.
    pub open spec fn column_all(self, chosen: Seq<bool>, iy: int) -> bool {
        forall|ix: int| 0 <= ix < self.x.len() && chosen[ix] ==> #[trigger] self.holds(ix, iy)
    }

    /// Position `ix` is related to some chosen member of the second domain.
    pub open spec fn row_any(self, chosen: Seq<bool>, ix: int) -> bool {
        exists|iy: int| 0 <= iy < self.y.len() && chosen[iy] && #[trigger] self.holds(ix, iy)
    }

    /// Position `ix` is related to every chosen member of the second
    /// domain.
    pub open spec fn row_all(self, chosen: Seq<bool>, ix: int) -> bool {
        forall|iy: int| 0 <= iy < self.y.len() && chosen[iy] ==> #[trigger] self.holds(ix, iy)
    }

    /// The members of the first domain that are related to some member.
    pub open spec fn source(self) -> Seq<ElementView> {
        select(self.x, |ix: int| self.has_successor(ix))
    }

    /// The members of the second domain that some member is related to.
    pub open spec fn range(self) -> Seq<ElementView> {
        select(self.y, |iy: int| self.has_predecessor(iy))
    }

    /// The members of the second domain that some member of `set` is
    /// related to.
    pub open spec fn image(self, set: Seq<ElementView>) -> Seq<ElementView> {
        select(self.y, |iy: int| self.column_any(membership(self.x, set), iy))
    }

    /// The members of the first domain that are related to some member of
    /// `set`.
    pub open spec fn preimage(self, set: Seq<ElementView>) -> Seq<ElementView> {
        select(self.x, |ix: int| self.row_any(membership(self.y, set), ix))
    }

    /// The members of the second domain that every member of `set` is
    /// related to.
    pub open spec fn image_strict(self, set: Seq<ElementView>) -> Seq<ElementView> {
        select(self.y, |iy: int| self.column_all(membership(self.x, set), iy))
    }

    /// The members of the first domain that are related to every member of
    /// `set`.
    pub open spec fn preimage_strict(self, set: Seq<ElementView>) -> Seq<ElementView> {
        select(self.x, |ix: int| self.row_all(membership(self.y, set), ix))
    }
}

/// The members of `a` that `b` holds too, in the order of `a`.
pub open spec fn common(a: Seq<ElementView>, b: Seq<ElementView>) -> Seq<ElementView> {
    select(a, |i: int| b.contains(a[i]))
}

/// What an order says of bounds. The relation is read as "precedes or
/// equals".
impl RelationView {
    /// The members that position `ix` is related to.
    pub open spec fn upset(self, ix: int) -> Seq<ElementView> {
        select(self.y, |iy: int| self.holds(ix, iy))
    }

    /// The members that are related to position `iy`.
    pub open spec fn downset(self, iy: int) -> Seq<ElementView> {
        select(self.x, |ix: int| self.holds(ix, iy))
    }

    /// The upper bounds of `set`: what every member of `set` is related to.
    pub open spec fn bound_upper(self, set: Seq<ElementView>) -> Seq<ElementView> {
        self.image_strict(set)
    }

    /// The lower bounds of `set`: what is related to every member of `set`.
    pub open spec fn bound_lower(self, set: Seq<ElementView>) -> Seq<ElementView> {
        self.preimage_strict(set)
    }

    /// The upper bounds of `set` that are members of `set`.
    pub open spec fn elements_greatest(self, set: Seq<ElementView>) -> Seq<ElementView> {
        common(self.bound_upper(set), set)
    }

    /// The lower bounds of `set` that are members of `set`.
    pub open spec fn elements_smallest(self, set: Seq<ElementView>) -> Seq<ElementView> {
        common(self.bound_lower(set), set)
    }

    /// The smallest among the upper bounds of `set`.
    pub open spec fn supremum(self, set: Seq<ElementView>) -> Seq<ElementView> {
        self.elements_smallest(self.bound_upper(set))
    }

    /// The greatest among the lower bounds of `set`.
    pub open spec fn infimum(self, set: Seq<ElementView>) -> Seq<ElementView> {
        self.elements_greatest(self.bound_lower(set))
    }
}

/// The properties a relation may have. Those that compare a member with
/// itself or swap the two sides are only true of relations whose two
/// domains are the same set.
impl RelationView {
    /// Both domains are the same set.
    pub open spec fn homogeneous(self) -> bool {
        self.x == self.y
    }

    /// At most one member is related to each member of the second domain.
    pub open spec fn injective(self) -> bool {
        forall|ix1: int, ix2: int, iy: int|
            #[trigger] self.holds(ix1, iy) && #[trigger] self.holds(ix2, iy) ==> ix1 == ix2
    }

    /// Each member of the first domain is related to at most one member.
    pub open spec fn functional(self) -> bool {
        forall|ix: int, iy1: int, iy2: int|
            #[trigger] self.holds(ix, iy1) && #[trigger] self.holds(ix, iy2) ==> iy1 == iy2
    }

    /// Position `ix` of the first domain is related to some member.
    pub open spec fn has_successor(self, ix: int) -> bool {
        exists|iy: int| 0 <= iy < self.y.len() && #[trigger] self.holds(ix, iy)
    }

    /// Some member is related to position `iy` of the second domain.
    pub open spec fn has_predecessor(self, iy: int) -> bool {
        exists|ix: int| 0 <= ix < self.x.len() && #[trigger] self.holds(ix, iy)
    }

    /// Every member of the first domain is related to some member.
    pub open spec fn left_total(self) -> bool {
        forall|ix: int| 0 <= ix < self.x.len() ==> #[trigger] self.has_successor(ix)
    }

    /// Some member is related to every member of the second domain.
    pub open spec fn surjective(self) -> bool {
        forall|iy: int| 0 <= iy < self.y.len() ==> #[trigger] self.has_predecessor(iy)
    }

    /// Injective and surjective.
    pub open spec fn bijective(self) -> bool {
        self.injective() && self.surjective()
    }

    /// Functional and left-total.
    pub open spec fn function(self) -> bool {
        self.functional() && self.left_total()
    }

    /// Every member is related to itself.
    pub open spec fn reflexive(self) -> bool {
        &&& self.homogeneous()
        &&& forall|i: int| 0 <= i < self.x.len() ==> #[trigger] self.holds(i, i)
    }

    /// No member is related to itself.
    pub open spec fn irreflexive(self) -> bool {
        &&& self.homogeneous()
        &&& forall|i: int| 0 <= i < self.x.len() ==> !#[trigger] self.holds(i, i)
    }

    /// No two different members are related both ways.
    pub open spec fn antisymmetric(self) -> bool {
        &&& self.homogeneous()
        &&& forall|i: int, j: int|
            0 <= i < j < self.x.len() ==> !(#[trigger] self.holds(i, j) && #[trigger] self.holds(
                j,
                i,
            ))
    }

    /// Whatever a member reaches in two steps, the first of them to another
    /// member, it reaches in one.
    pub open spec fn transitive(self) -> bool {
        &&& self.homogeneous()
        &&& forall|i: int, j: int, k: int|
            i != j && #[trigger] self.holds(i, j) && #[trigger] self.holds(j, k) ==> self.holds(
                i,
                k,
            )
    }

    /// Two different members are related both ways or not at all.
    pub open spec fn symmetric(self) -> bool {
        &&& self.homogeneous()
        &&& forall|i: int, j: int|
            0 <= i < j < self.x.len() ==> #[trigger] self.holds(i, j) == #[trigger] self.holds(j, i)
    }

    /// Irreflexive and antisymmetric.
    pub open spec fn asymmetric(self) -> bool {
        self.irreflexive() && self.antisymmetric()
    }

    /// Reflexive and transitive.
    pub open spec fn preorder(self) -> bool {
        self.reflexive() && self.transitive()
    }

    /// A preorder that is antisymmetric.
    pub open spec fn partial_order(self) -> bool {
        self.preorder() && self.antisymmetric()
    }

    /// A preorder that is symmetric.
    pub open spec fn equivalent(self) -> bool {
        self.preorder() && self.symmetric()
    }

    /// Whatever position `j` is related to, position `i` is related to.
    pub open spec fn row_within(self, j: int, i: int) -> bool {
        forall|k: int| 0 <= k < self.y.len() && #[trigger] self.holds(j, k) ==> self.holds(i, k)
    }

    /// Positions `i` and `z` are related to the same members.
    pub open spec fn row_equal(self, i: int, z: int) -> bool {
        forall|w: int| 0 <= w < self.y.len() ==> #[trigger] self.holds(i, w) == self.holds(z, w)
    }

    /// Whenever `x` and `z` are both related to some `y`, `x` is related to
    /// everything that `z` is related to.
    pub open spec fn difunctional(self) -> bool {
        &&& self.homogeneous()
        &&& forall|w: int, x: int, y: int, z: int|
            #[trigger] self.holds(x, y) && #[trigger] self.holds(z, y) && #[trigger] self.holds(
                z,
                w,
            ) ==> self.holds(x, w)
    }
}

} // verus!
