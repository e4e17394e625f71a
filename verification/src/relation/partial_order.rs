//! Bounds in an order.

use vstd::prelude::*;
use crate::error::RelationError;
use crate::relation::endorelation::Endorelation;
use crate::relation::model::position_of;
use crate::relation::model::lemma_position_of;
use crate::relation::operators::{
    Complement, Concatenation, Converse, Empty, Identity, Intersection, Union, Universal,
};
use crate::relation::relation::Relation;
use crate::relation::relation_vec::RelationVec;
use crate::select::lemma_select_ext;
use crate::set::{OrderedSet, SetElement};

verus! {

/// What a relation says when it is read as an order, "precedes or equals":
/// the members above and below a member, and the bounds of a set.
pub trait PartialOrder: Endorelation {
    /// The members that `x` is related to. `x` has to be a member of the
    /// first domain.
    fn upset(&self, x: &SetElement) -> (res: Result<OrderedSet, RelationError>)
        requires
            self.wf(),
        ensures
            match res {
                Ok(s) => {
                    &&& self@.x.contains(x@)
                    &&& s.wf()
                    &&& s@ == self@.upset(position_of(self@.x, x@))
                },
                Err(e) => !self@.x.contains(x@) && e == RelationError::ElementNotFound,
            },
    {
        proof {
            self.lemma_view_wf();
        }
        let d = self.get_domain();
        match d.0.position(x) {
            None => Err(RelationError::ElementNotFound),
            Some(ix) => {
                let ny = d.1.cardinality();
                let mut mask: Vec<bool> = Vec::new();
                let mut iy: usize = 0;
                while iy < ny
                    invariant
                        self.wf(),
                        ix < self@.x.len(),
                        ny == self@.y.len(),
                        iy <= ny,
                        mask@.len() == iy,
                        forall|j: int| 0 <= j < iy ==> mask@[j] == self@.holds(ix as int, j),
                    decreases ny - iy,
                {
                    let b = self.eval_at(ix, iy);
                    mask.push(b);
                    iy += 1;
                }
                proof {
                    lemma_position_of(self@.x, ix as int);
                    lemma_select_ext(
                        self@.y,
                        |j: int| mask@[j],
                        |j: int| self@.holds(ix as int, j),
                    );
                }
                Ok(d.1.subset_by_mask(&mask))
            },
        }
    }

    /// The members that are related to `x`. `x` has to be a member of the
    /// second domain.
    fn downset(&self, x: &SetElement) -> (res: Result<OrderedSet, RelationError>)
        requires
            self.wf(),
        ensures
            match res {
                Ok(s) => {
                    &&& self@.y.contains(x@)
                    &&& s.wf()
                    &&& s@ == self@.downset(position_of(self@.y, x@))
                },
                Err(e) => !self@.y.contains(x@) && e == RelationError::ElementNotFound,
            },
    {
        proof {
            self.lemma_view_wf();
        }
        let d = self.get_domain();
        match d.1.position(x) {
            None => Err(RelationError::ElementNotFound),
            Some(iy) => {
                let nx = d.0.cardinality();
                let mut mask: Vec<bool> = Vec::new();
                let mut ix: usize = 0;
                while ix < nx
                    invariant
                        self.wf(),
                        iy < self@.y.len(),
                        nx == self@.x.len(),
                        ix <= nx,
                        mask@.len() == ix,
                        forall|i: int| 0 <= i < ix ==> mask@[i] == self@.holds(i, iy as int),
                    decreases nx - ix,
                {
                    let b = self.eval_at(ix, iy);
                    mask.push(b);
                    ix += 1;
                }
                proof {
                    lemma_position_of(self@.y, iy as int);
                    lemma_select_ext(
                        self@.x,
                        |i: int| mask@[i],
                        |i: int| self@.holds(i, iy as int),
                    );
                }
                Ok(d.0.subset_by_mask(&mask))
            },
        }
    }

    /// The upper bounds of `u`: the members that every member of `u` is
    /// related to.
    fn bound_upper(&self, u: &OrderedSet) -> (s: OrderedSet)
        requires
            self.wf(),
            u.wf(),
        ensures
            s.wf(),
            s@ == self@.bound_upper(u@),
    {
        self.image_strict(u)
    }

    /// The lower bounds of `u`: the members that are related to every
    /// member of `u`.
    fn bound_lower(&self, u: &OrderedSet) -> (s: OrderedSet)
        requires
            self.wf(),
            u.wf(),
        ensures
            s.wf(),
            s@ == self@.bound_lower(u@),
    {
        self.preimage_strict(u)
    }

    /// The upper bounds of `u` that are members of `u`.
    fn elements_greatest(&self, u: &OrderedSet) -> (s: OrderedSet)
        requires
            self.wf(),
            u.wf(),
        ensures
            s.wf(),
            s@ == self@.elements_greatest(u@),
    {
        self.bound_upper(u).intersection(u)
    }

    /// The lower bounds of `u` that are members of `u`.
    fn elements_smallest(&self, u: &OrderedSet) -> (s: OrderedSet)
        requires
            self.wf(),
            u.wf(),
        ensures
            s.wf(),
            s@ == self@.elements_smallest(u@),
    {
        self.bound_lower(u).intersection(u)
    }

    /// The smallest among the upper bounds of `u`.
    fn supremum(&self, u: &OrderedSet) -> (s: OrderedSet)
        requires
            self.wf(),
            u.wf(),
        ensures
            s.wf(),
            s@ == self@.supremum(u@),
    {
        self.elements_smallest(&self.bound_upper(u))
    }

    /// The greatest among the lower bounds of `u`.
    fn infimum(&self, u: &OrderedSet) -> (s: OrderedSet)
        requires
            self.wf(),
            u.wf(),
        ensures
            s.wf(),
            s@ == self@.infimum(u@),
    {
        self.elements_greatest(&self.bound_lower(u))
    }
}

impl PartialOrder for RelationVec {

}

impl<'a> PartialOrder for Empty<'a> {

}

impl<'a> PartialOrder for Universal<'a> {

}

impl<'a> PartialOrder for Identity<'a> {

}

impl<'a, R: Relation> PartialOrder for Complement<'a, R> {

}

impl<'a, R: Relation> PartialOrder for Converse<'a, R> {

}

impl<'a, P: Relation, Q: Relation> PartialOrder for Concatenation<'a, P, Q> {

}

impl<'a, P: Relation, Q: Relation> PartialOrder for Intersection<'a, P, Q> {

}

impl<'a, P: Relation, Q: Relation> PartialOrder for Union<'a, P, Q> {

}

/// Whether the order of `r` is that of a sublattice of `other`. This is
/// not decided: the answer is always no.
pub fn is_sublattice<R: Endorelation, T: Endorelation>(r: &R, other: &T) -> (b: bool)
    requires
        r.wf(),
        other.wf(),
    ensures
        !b,
{
    false
}

} // verus!
