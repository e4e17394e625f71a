//! The relation contract, what follows from it, and the operators that
//! combine relations into new ones.

use vstd::prelude::*;
use crate::error::RelationError;
use crate::relation::model::{lemma_position_of, membership, position_of, RelationView};
use crate::select::lemma_select_ext;
use crate::set::SetElement;
use crate::set::OrderedSet;

verus! {

/// Anything that names two domains and says, for each pair of positions in
/// them, whether the members there are related.
pub trait Relation: View<V = RelationView> + Sized {
    /// Validity of the value; constructors establish it.
    spec fn wf(&self) -> bool;

    /// A valid value stands for a valid relation.
    proof fn lemma_view_wf(&self)
        requires
            self.wf(),
        ensures
            self@.wf(),
    ;

    /// The two domains.
    fn get_domain(&self) -> (d: (&OrderedSet, &OrderedSet))
        requires
            self.wf(),
        ensures
            d.0@ == self@.x,
            d.1@ == self@.y,
    ;

    /// Whether the member at position `ix` of the first domain is related
    /// to the member at position `iy` of the second.
    fn eval_at(&self, ix: usize, iy: usize) -> (b: bool)
        requires
            self.wf(),
            self@.in_range(ix as int, iy as int),
        ensures
            b == self@.holds(ix as int, iy as int),
    ;

    /// The answer of `eval_at` for any pair of numbers: an error where
    /// they are not a pair of positions of the domains.
    fn try_eval_at(&self, ix: usize, iy: usize) -> (res: Result<bool, RelationError>)
        requires
            self.wf(),
        ensures
            match res {
                Ok(b) => self@.in_range(ix as int, iy as int) && b == self@.holds(
                    ix as int,
                    iy as int,
                ),
                Err(e) => !self@.in_range(ix as int, iy as int) && e
                    == RelationError::IndexOutOfRange,
            },
    {
        if ix < self.len_x() && iy < self.len_y() {
            Ok(self.eval_at(ix, iy))
        } else {
            Err(RelationError::IndexOutOfRange)
        }
    }

    /// Whether `x` is related to `y`. Both have to be members: `x` of the
    /// first domain and `y` of the second.
    fn eval(&self, x: &SetElement, y: &SetElement) -> (res: Result<bool, RelationError>)
        requires
            self.wf(),
        ensures
            match res {
                Ok(b) => {
                    &&& self@.x.contains(x@)
                    &&& self@.y.contains(y@)
                    &&& b == self@.holds(position_of(self@.x, x@), position_of(self@.y, y@))
                },
                Err(e) => {
                    &&& !(self@.x.contains(x@) && self@.y.contains(y@))
                    &&& e == RelationError::ElementNotFound
                },
            },
    {
        proof {
            self.lemma_view_wf();
        }
        let d = self.get_domain();
        match d.0.position(x) {
            Some(ix) => match d.1.position(y) {
                Some(iy) => {
                    proof {
                        lemma_position_of(self@.x, ix as int);
                        lemma_position_of(self@.y, iy as int);
                    }
                    Ok(self.eval_at(ix, iy))
                },
                None => Err(RelationError::ElementNotFound),
            },
            None => Err(RelationError::ElementNotFound),
        }
    }

    /// The positions of the first domain.
    fn ixs(&self) -> (r: core::ops::Range<usize>)
        requires
            self.wf(),
        ensures
            r.start == 0,
            r.end == self@.x.len(),
    {
        0..self.len_x()
    }

    /// The positions of the second domain.
    fn iys(&self) -> (r: core::ops::Range<usize>)
        requires
            self.wf(),
        ensures
            r.start == 0,
            r.end == self@.y.len(),
    {
        0..self.len_y()
    }

    /// The number of members of the first domain.
    fn len_x(&self) -> (n: usize)
        requires
            self.wf(),
        ensures
            n == self@.x.len(),
    {
        self.get_domain().0.cardinality()
    }

    /// The number of members of the second domain.
    fn len_y(&self) -> (n: usize)
        requires
            self.wf(),
        ensures
            n == self@.y.len(),
    {
        self.get_domain().1.cardinality()
    }

    /// Whether both domains are the same set.
    fn is_homogeneous(&self) -> (b: bool)
        requires
            self.wf(),
        ensures
            b == self@.homogeneous(),
    {
        let d = self.get_domain();
        d.0.equals(d.1)
    }

    /// Whether the two domains differ.
    fn is_heterogeneous(&self) -> (b: bool)
        requires
            self.wf(),
        ensures
            b == !self@.homogeneous(),
    {
        !self.is_homogeneous()
    }

    /// Whether at most one member is related to each member of the second
    /// domain.
    fn is_injective(&self) -> (b: bool)
        requires
            self.wf(),
        ensures
            b == self@.injective(),
    {
        proof {
            self.lemma_view_wf();
        }
        let nx = self.len_x();
        let ny = self.len_y();
        let mut iy: usize = 0;
        while iy < ny
            invariant
                self.wf(),
                self@.wf(),
                nx == self@.x.len(),
                ny == self@.y.len(),
                iy <= ny,
                forall|a: int, b: int, j: int|
                    0 <= j < iy && #[trigger] self@.holds(a, j) && #[trigger] self@.holds(b, j)
                        ==> a == b,
            decreases ny - iy,
        {
            let mut found_one = false;
            let ghost mut witness: int = 0;
            let mut ix: usize = 0;
            while ix < nx
                invariant
                    self.wf(),
                    self@.wf(),
                    nx == self@.x.len(),
                    ny == self@.y.len(),
                    iy < ny,
                    ix <= nx,
                    found_one ==> 0 <= witness < ix && self@.holds(witness, iy as int),
                    forall|a: int|
                        0 <= a < ix && #[trigger] self@.holds(a, iy as int) ==> found_one && a
                            == witness,
                decreases nx - ix,
            {
                if self.eval_at(ix, iy) {
                    if !found_one {
                        found_one = true;
                        proof {
                            witness = ix as int;
                        }
                    } else {
                        assert(self@.holds(witness, iy as int) && self@.holds(
                            ix as int,
                            iy as int,
                        ));
                        return false;
                    }
                }
                ix += 1;
            }
            assert forall|a: int, b: int, j: int|
                0 <= j < iy + 1 && #[trigger] self@.holds(a, j) && #[trigger] self@.holds(
                    b,
                    j,
                ) implies a == b by {
                if j == iy {
                    assert(self@.in_range(a, j) && self@.in_range(b, j));
                }
            }
            iy += 1;
        }
        assert forall|a: int, b: int, j: int| #[trigger]
            self@.holds(a, j) && #[trigger] self@.holds(b, j) implies a == b by {
            assert(self@.in_range(a, j));
        }
        true
    }

    /// Whether each member of the first domain is related to at most one
    /// member.
    fn is_functional(&self) -> (b: bool)
        requires
            self.wf(),
        ensures
            b == self@.functional(),
    {
        proof {
            self.lemma_view_wf();
        }
        let nx = self.len_x();
        let ny = self.len_y();
        let mut ix: usize = 0;
        while ix < nx
            invariant
                self.wf(),
                self@.wf(),
                nx == self@.x.len(),
                ny == self@.y.len(),
                ix <= nx,
                forall|i: int, a: int, b: int|
                    0 <= i < ix && #[trigger] self@.holds(i, a) && #[trigger] self@.holds(i, b)
                        ==> a == b,
            decreases nx - ix,
        {
            let mut found_one = false;
            let ghost mut witness: int = 0;
            let mut iy: usize = 0;
            while iy < ny
                invariant
                    self.wf(),
                    self@.wf(),
                    nx == self@.x.len(),
                    ny == self@.y.len(),
                    ix < nx,
                    iy <= ny,
                    found_one ==> 0 <= witness < iy && self@.holds(ix as int, witness),
                    forall|a: int|
                        0 <= a < iy && #[trigger] self@.holds(ix as int, a) ==> found_one && a
                            == witness,
                decreases ny - iy,
            {
                if self.eval_at(ix, iy) {
                    if !found_one {
                        found_one = true;
                        proof {
                            witness = iy as int;
                        }
                    } else {
                        assert(self@.holds(ix as int, witness) && self@.holds(
                            ix as int,
                            iy as int,
                        ));
                        return false;
                    }
                }
                iy += 1;
            }
            assert forall|i: int, a: int, b: int|
                0 <= i < ix + 1 && #[trigger] self@.holds(i, a) && #[trigger] self@.holds(
                    i,
                    b,
                ) implies a == b by {
                if i == ix {
                    assert(self@.in_range(i, a) && self@.in_range(i, b));
                }
            }
            ix += 1;
        }
        assert forall|i: int, a: int, b: int| #[trigger]
            self@.holds(i, a) && #[trigger] self@.holds(i, b) implies a == b by {
            assert(self@.in_range(i, a));
        }
        true
    }

    /// Whether position `ix` of the first domain is related to some member.
    fn relates_from(&self, ix: usize) -> (b: bool)
        requires
            self.wf(),
            ix < self@.x.len(),
        ensures
            b == self@.has_successor(ix as int),
    {
        let ny = self.len_y();
        let mut iy: usize = 0;
        while iy < ny
            invariant
                self.wf(),
                ix < self@.x.len(),
                ny == self@.y.len(),
                iy <= ny,
                forall|j: int| 0 <= j < iy ==> !#[trigger] self@.holds(ix as int, j),
            decreases ny - iy,
        {
            if self.eval_at(ix, iy) {
                return true;
            }
            iy += 1;
        }
        false
    }

    /// Whether some member is related to position `iy` of the second domain.
    fn relates_to(&self, iy: usize) -> (b: bool)
        requires
            self.wf(),
            iy < self@.y.len(),
        ensures
            b == self@.has_predecessor(iy as int),
    {
        let nx = self.len_x();
        let mut ix: usize = 0;
        while ix < nx
            invariant
                self.wf(),
                iy < self@.y.len(),
                nx == self@.x.len(),
                ix <= nx,
                forall|i: int| 0 <= i < ix ==> !#[trigger] self@.holds(i, iy as int),
            decreases nx - ix,
        {
            if self.eval_at(ix, iy) {
                return true;
            }
            ix += 1;
        }
        false
    }

    /// Whether every member of the first domain is related to some member.
    fn is_lefttotal(&self) -> (b: bool)
        requires
            self.wf(),
        ensures
            b == self@.left_total(),
    {
        let nx = self.len_x();
        let mut ix: usize = 0;
        while ix < nx
            invariant
                self.wf(),
                nx == self@.x.len(),
                ix <= nx,
                forall|i: int| 0 <= i < ix ==> #[trigger] self@.has_successor(i),
            decreases nx - ix,
        {
            if !self.relates_from(ix) {
                return false;
            }
            ix += 1;
        }
        true
    }

    /// Whether some member is related to every member of the second domain.
    fn is_surjective(&self) -> (b: bool)
        requires
            self.wf(),
        ensures
            b == self@.surjective(),
    {
        let ny = self.len_y();
        let mut iy: usize = 0;
        while iy < ny
            invariant
                self.wf(),
                ny == self@.y.len(),
                iy <= ny,
                forall|j: int| 0 <= j < iy ==> #[trigger] self@.has_predecessor(j),
            decreases ny - iy,
        {
            if !self.relates_to(iy) {
                return false;
            }
            iy += 1;
        }
        true
    }

    /// Whether some chosen member of the first domain is related to
    /// position `iy`.
    fn column_any(&self, chosen: &Vec<bool>, iy: usize) -> (b: bool)
        requires
            self.wf(),
            chosen@.len() == self@.x.len(),
            iy < self@.y.len(),
        ensures
            b == self@.column_any(chosen@, iy as int),
    {
        let nx = self.len_x();
        let mut ix: usize = 0;
        while ix < nx
            invariant
                self.wf(),
                chosen@.len() == nx,
                iy < self@.y.len(),
                nx == self@.x.len(),
                ix <= nx,
                forall|i: int| 0 <= i < ix && chosen@[i] ==> !#[trigger] self@.holds(i, iy as int),
            decreases nx - ix,
        {
            if chosen[ix] && self.eval_at(ix, iy) {
                return true;
            }
            ix += 1;
        }
        false
    }

    /// Whether every chosen member of the first domain is related to
    /// position `iy`.
    fn column_all(&self, chosen: &Vec<bool>, iy: usize) -> (b: bool)
        requires
            self.wf(),
            chosen@.len() == self@.x.len(),
            iy < self@.y.len(),
        ensures
            b == self@.column_all(chosen@, iy as int),
    {
        let nx = self.len_x();
        let mut ix: usize = 0;
        while ix < nx
            invariant
                self.wf(),
                chosen@.len() == nx,
                iy < self@.y.len(),
                nx == self@.x.len(),
                ix <= nx,
                forall|i: int| 0 <= i < ix && chosen@[i] ==> #[trigger] self@.holds(i, iy as int),
            decreases nx - ix,
        {
            if chosen[ix] && !self.eval_at(ix, iy) {
                return false;
            }
            ix += 1;
        }
        true
    }

    /// Whether position `ix` is related to some chosen member of the
    /// second domain.
    fn row_any(&self, chosen: &Vec<bool>, ix: usize) -> (b: bool)
        requires
            self.wf(),
            chosen@.len() == self@.y.len(),
            ix < self@.x.len(),
        ensures
            b == self@.row_any(chosen@, ix as int),
    {
        let ny = self.len_y();
        let mut iy: usize = 0;
        while iy < ny
            invariant
                self.wf(),
                chosen@.len() == ny,
                ix < self@.x.len(),
                ny == self@.y.len(),
                iy <= ny,
                forall|j: int| 0 <= j < iy && chosen@[j] ==> !#[trigger] self@.holds(ix as int, j),
            decreases ny - iy,
        {
            if chosen[iy] && self.eval_at(ix, iy) {
                return true;
            }
            iy += 1;
        }
        false
    }

    /// Whether position `ix` is related to every chosen member of the
    /// second domain.
    fn row_all(&self, chosen: &Vec<bool>, ix: usize) -> (b: bool)
        requires
            self.wf(),
            chosen@.len() == self@.y.len(),
            ix < self@.x.len(),
        ensures
            b == self@.row_all(chosen@, ix as int),
    {
        let ny = self.len_y();
        let mut iy: usize = 0;
        while iy < ny
            invariant
                self.wf(),
                chosen@.len() == ny,
                ix < self@.x.len(),
                ny == self@.y.len(),
                iy <= ny,
                forall|j: int| 0 <= j < iy && chosen@[j] ==> #[trigger] self@.holds(ix as int, j),
            decreases ny - iy,
        {
            if chosen[iy] && !self.eval_at(ix, iy) {
                return false;
            }
            iy += 1;
        }
        true
    }

    /// The members of the first domain that are related to some member.
    fn source(&self) -> (s: OrderedSet)
        requires
            self.wf(),
        ensures
            s.wf(),
            s@ == self@.source(),
    {
        proof {
            self.lemma_view_wf();
        }
        let nx = self.len_x();
        let mut mask: Vec<bool> = Vec::new();
        let mut ix: usize = 0;
        while ix < nx
            invariant
                self.wf(),
                nx == self@.x.len(),
                ix <= nx,
                mask@.len() == ix,
                forall|i: int| 0 <= i < ix ==> mask@[i] == self@.has_successor(i),
            decreases nx - ix,
        {
            let b = self.relates_from(ix);
            mask.push(b);
            ix += 1;
        }
        proof {
            lemma_select_ext(self@.x, |i: int| mask@[i], |i: int| self@.has_successor(i));
        }
        self.get_domain().0.subset_by_mask(&mask)
    }

    /// The members of the second domain that some member is related to.
    fn range(&self) -> (s: OrderedSet)
        requires
            self.wf(),
        ensures
            s.wf(),
            s@ == self@.range(),
    {
        proof {
            self.lemma_view_wf();
        }
        let ny = self.len_y();
        let mut mask: Vec<bool> = Vec::new();
        let mut iy: usize = 0;
        while iy < ny
            invariant
                self.wf(),
                ny == self@.y.len(),
                iy <= ny,
                mask@.len() == iy,
                forall|j: int| 0 <= j < iy ==> mask@[j] == self@.has_predecessor(j),
            decreases ny - iy,
        {
            let b = self.relates_to(iy);
            mask.push(b);
            iy += 1;
        }
        proof {
            lemma_select_ext(self@.y, |j: int| mask@[j], |j: int| self@.has_predecessor(j));
        }
        self.get_domain().1.subset_by_mask(&mask)
    }

    /// The image of `set`: the members of the second domain that some
    /// member of `set` is related to. What `set` holds beyond the first
    /// domain is passed over.
    fn image(&self, set: &OrderedSet) -> (s: OrderedSet)
        requires
            self.wf(),
            set.wf(),
        ensures
            s.wf(),
            s@ == self@.image(set@),
    {
        proof {
            self.lemma_view_wf();
        }
        let d = self.get_domain();
        let chosen = d.0.member_mask(set);
        assert(chosen@ =~= membership(self@.x, set@));
        let ny = self.len_y();
        let mut mask: Vec<bool> = Vec::new();
        let mut iy: usize = 0;
        while iy < ny
            invariant
                self.wf(),
                chosen@.len() == self@.x.len(),
                ny == self@.y.len(),
                iy <= ny,
                mask@.len() == iy,
                forall|j: int| 0 <= j < iy ==> mask@[j] == self@.column_any(chosen@, j),
            decreases ny - iy,
        {
            let b = self.column_any(&chosen, iy);
            mask.push(b);
            iy += 1;
        }
        proof {
            lemma_select_ext(
                self@.y,
                |j: int| mask@[j],
                |j: int| self@.column_any(membership(self@.x, set@), j),
            );
        }
        d.1.subset_by_mask(&mask)
    }

    /// The preimage of `set`: the members of the first domain that are
    /// related to some member of `set`. What `set` holds beyond the second
    /// domain is passed over.
    fn preimage(&self, set: &OrderedSet) -> (s: OrderedSet)
        requires
            self.wf(),
            set.wf(),
        ensures
            s.wf(),
            s@ == self@.preimage(set@),
    {
        proof {
            self.lemma_view_wf();
        }
        let d = self.get_domain();
        let chosen = d.1.member_mask(set);
        assert(chosen@ =~= membership(self@.y, set@));
        let nx = self.len_x();
        let mut mask: Vec<bool> = Vec::new();
        let mut ix: usize = 0;
        while ix < nx
            invariant
                self.wf(),
                chosen@.len() == self@.y.len(),
                nx == self@.x.len(),
                ix <= nx,
                mask@.len() == ix,
                forall|i: int| 0 <= i < ix ==> mask@[i] == self@.row_any(chosen@, i),
            decreases nx - ix,
        {
            let b = self.row_any(&chosen, ix);
            mask.push(b);
            ix += 1;
        }
        proof {
            lemma_select_ext(
                self@.x,
                |i: int| mask@[i],
                |i: int| self@.row_any(membership(self@.y, set@), i),
            );
        }
        d.0.subset_by_mask(&mask)
    }

    /// The strict image of `set`: the members of the second domain that
    /// every member of `set` is related to; all of them where `set` is
    /// empty. What `set` holds beyond the first domain is passed over.
    fn image_strict(&self, set: &OrderedSet) -> (s: OrderedSet)
        requires
            self.wf(),
            set.wf(),
        ensures
            s.wf(),
            s@ == self@.image_strict(set@),
    {
        proof {
            self.lemma_view_wf();
        }
        let d = self.get_domain();
        let chosen = d.0.member_mask(set);
        assert(chosen@ =~= membership(self@.x, set@));
        let ny = self.len_y();
        let mut mask: Vec<bool> = Vec::new();
        let mut iy: usize = 0;
        while iy < ny
            invariant
                self.wf(),
                chosen@.len() == self@.x.len(),
                ny == self@.y.len(),
                iy <= ny,
                mask@.len() == iy,
                forall|j: int| 0 <= j < iy ==> mask@[j] == self@.column_all(chosen@, j),
            decreases ny - iy,
        {
            let b = self.column_all(&chosen, iy);
            mask.push(b);
            iy += 1;
        }
        proof {
            lemma_select_ext(
                self@.y,
                |j: int| mask@[j],
                |j: int| self@.column_all(membership(self@.x, set@), j),
            );
        }
        d.1.subset_by_mask(&mask)
    }

    /// The strict preimage of `set`: the members of the first domain that
    /// are related to every member of `set`; all of them where `set` is
    /// empty. What `set` holds beyond the second domain is passed over.
    fn preimage_strict(&self, set: &OrderedSet) -> (s: OrderedSet)
        requires
            self.wf(),
            set.wf(),
        ensures
            s.wf(),
            s@ == self@.preimage_strict(set@),
    {
        proof {
            self.lemma_view_wf();
        }
        let d = self.get_domain();
        let chosen = d.1.member_mask(set);
        assert(chosen@ =~= membership(self@.y, set@));
        let nx = self.len_x();
        let mut mask: Vec<bool> = Vec::new();
        let mut ix: usize = 0;
        while ix < nx
            invariant
                self.wf(),
                chosen@.len() == self@.y.len(),
                nx == self@.x.len(),
                ix <= nx,
                mask@.len() == ix,
                forall|i: int| 0 <= i < ix ==> mask@[i] == self@.row_all(chosen@, i),
            decreases nx - ix,
        {
            let b = self.row_all(&chosen, ix);
            mask.push(b);
            ix += 1;
        }
        proof {
            lemma_select_ext(
                self@.x,
                |i: int| mask@[i],
                |i: int| self@.row_all(membership(self@.y, set@), i),
            );
        }
        d.0.subset_by_mask(&mask)
    }

    /// Whether the relation is injective and surjective.
    fn is_bijective(&self) -> (b: bool)
        requires
            self.wf(),
        ensures
            b == self@.bijective(),
    {
        self.is_injective() && self.is_surjective()
    }

    /// Whether the relation is functional and left-total.
    fn is_function(&self) -> (b: bool)
        requires
            self.wf(),
        ensures
            b == self@.function(),
    {
        self.is_functional() && self.is_lefttotal()
    }
}

/// Compares two relations: the same domains, and the same answer at every
/// pair of positions.
pub fn eq<P: Relation, Q: Relation>(p: &P, q: &Q) -> (b: bool)
    requires
        p.wf(),
        q.wf(),
    ensures
        b == (p@ == q@),
{
    proof {
        p.lemma_view_wf();
        q.lemma_view_wf();
    }
    let dp = p.get_domain();
    let dq = q.get_domain();
    if !dp.0.equals(dq.0) || !dp.1.equals(dq.1) {
        return false;
    }
    let nx = p.len_x();
    let ny = p.len_y();
    let mut ix: usize = 0;
    while ix < nx
        invariant
            p.wf(),
            q.wf(),
            p@.same_domain(q@),
            nx == p@.x.len(),
            ny == p@.y.len(),
            ix <= nx,
            forall|i: int, j: int|
                0 <= i < ix && 0 <= j < ny ==> #[trigger] p@.holds(i, j) == q@.holds(i, j),
        decreases nx - ix,
    {
        let mut iy: usize = 0;
        while iy < ny
            invariant
                p.wf(),
                q.wf(),
                p@.same_domain(q@),
                nx == p@.x.len(),
                ny == p@.y.len(),
                ix < nx,
                iy <= ny,
                forall|i: int, j: int|
                    0 <= i < ix && 0 <= j < ny ==> #[trigger] p@.holds(i, j) == q@.holds(i, j),
                forall|j: int| 0 <= j < iy ==> #[trigger] p@.holds(ix as int, j) == q@.holds(ix as int, j),
            decreases ny - iy,
        {
            if p.eval_at(ix, iy) != q.eval_at(ix, iy) {
                return false;
            }
            iy += 1;
        }
        ix += 1;
    }
    proof {
        assert forall|pair: (int, int)| p@.pairs.contains(pair) == q@.pairs.contains(pair) by {
            let (i, j) = pair;
            if p@.holds(i, j) {
                assert(p@.in_range(i, j));
            }
            if q@.holds(i, j) {
                assert(q@.in_range(i, j));
                assert(p@.holds(i, j) == q@.holds(i, j));
            }
        }
        assert(p@.pairs =~= q@.pairs);
    }
    true
}

/// Whether two relations differ in a domain or at some pair of positions.
pub fn neq<P: Relation, Q: Relation>(p: &P, q: &Q) -> (b: bool)
    requires
        p.wf(),
        q.wf(),
    ensures
        b == (p@ != q@),
{
    !eq(p, q)
}

} // verus!
