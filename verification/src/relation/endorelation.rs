//! Relations on a single set, and the properties that only make sense
//! there.

use vstd::prelude::*;
use crate::cow::LCow;
use crate::error::RelationError;
use crate::relation::operators::{
    Complement, Concatenation, Converse, Empty, Identity, Intersection, Union, Universal,
};
use crate::relation::model::RelationView;
use crate::relation::relation::Relation;
use crate::set::OrderedSet;
use crate::relation::relation_vec::RelationVec;

verus! {

/// The properties of a relation on one set. Asked of a relation between
/// two different sets, each of them is false.
pub trait Endorelation: Relation {
    /// Whether every member is related to itself.
    fn is_reflexive(&self) -> (b: bool)
        requires
            self.wf(),
        ensures
            b == self@.reflexive(),
    {
        if !self.is_homogeneous() {
            return false;
        }
        let n = self.len_x();
        let mut i: usize = 0;
        while i < n
            invariant
                self.wf(),
                self@.homogeneous(),
                n == self@.x.len(),
                i <= n,
                forall|k: int| 0 <= k < i ==> #[trigger] self@.holds(k, k),
            decreases n - i,
        {
            if !self.eval_at(i, i) {
                return false;
            }
            i += 1;
        }
        true
    }

    /// Whether no member is related to itself.
    fn is_irreflexive(&self) -> (b: bool)
        requires
            self.wf(),
        ensures
            b == self@.irreflexive(),
    {
        if !self.is_homogeneous() {
            return false;
        }
        let n = self.len_x();
        let mut i: usize = 0;
        while i < n
            invariant
                self.wf(),
                self@.homogeneous(),
                n == self@.x.len(),
                i <= n,
                forall|k: int| 0 <= k < i ==> !#[trigger] self@.holds(k, k),
            decreases n - i,
        {
            if self.eval_at(i, i) {
                return false;
            }
            i += 1;
        }
        true
    }

    /// Whether no two different members are related both ways.
    fn is_antisymmetric(&self) -> (b: bool)
        requires
            self.wf(),
        ensures
            b == self@.antisymmetric(),
    {
        if !self.is_homogeneous() {
            return false;
        }
        let n = self.len_x();
        let mut i: usize = 0;
        while i < n
            invariant
                self.wf(),
                self@.homogeneous(),
                n == self@.x.len(),
                i <= n,
                forall|a: int, b: int|
                    0 <= a < i && a < b < n ==> !(#[trigger] self@.holds(a, b)
                        && #[trigger] self@.holds(b, a)),
            decreases n - i,
        {
            let mut j: usize = i + 1;
            while j < n
                invariant
                    self.wf(),
                    self@.homogeneous(),
                    n == self@.x.len(),
                    i < n,
                    i < j <= n,
                    forall|b: int|
                        i < b < j ==> !(#[trigger] self@.holds(i as int, b) && self@.holds(
                            b,
                            i as int,
                        )),
                decreases n - j,
            {
                if self.eval_at(i, j) && self.eval_at(j, i) {
                    return false;
                }
                j += 1;
            }
            i += 1;
        }
        true
    }

    /// Whether two different members are related both ways or not at all.
    fn is_symmetric(&self) -> (b: bool)
        requires
            self.wf(),
        ensures
            b == self@.symmetric(),
    {
        if !self.is_homogeneous() {
            return false;
        }
        let n = self.len_x();
        let mut i: usize = 0;
        while i < n
            invariant
                self.wf(),
                self@.homogeneous(),
                n == self@.x.len(),
                i <= n,
                forall|a: int, b: int|
                    0 <= a < i && a < b < n ==> #[trigger] self@.holds(a, b)
                        == #[trigger] self@.holds(b, a),
            decreases n - i,
        {
            let mut j: usize = i + 1;
            while j < n
                invariant
                    self.wf(),
                    self@.homogeneous(),
                    n == self@.x.len(),
                    i < n,
                    i < j <= n,
                    forall|b: int|
                        i < b < j ==> #[trigger] self@.holds(i as int, b) == self@.holds(
                            b,
                            i as int,
                        ),
                decreases n - j,
            {
                if self.eval_at(i, j) != self.eval_at(j, i) {
                    return false;
                }
                j += 1;
            }
            i += 1;
        }
        true
    }

    /// Whether position `i` is related to everything that position `j` is
    /// related to.
    fn row_within(&self, j: usize, i: usize) -> (b: bool)
        requires
            self.wf(),
            i < self@.x.len(),
            j < self@.x.len(),
        ensures
            b == self@.row_within(j as int, i as int),
    {
        let n = self.len_y();
        let mut k: usize = 0;
        while k < n
            invariant
                self.wf(),
                i < self@.x.len(),
                j < self@.x.len(),
                n == self@.y.len(),
                k <= n,
                forall|c: int|
                    0 <= c < k && #[trigger] self@.holds(j as int, c) ==> self@.holds(i as int, c),
            decreases n - k,
        {
            if self.eval_at(j, k) && !self.eval_at(i, k) {
                return false;
            }
            k += 1;
        }
        true
    }

    /// Whether positions `i` and `z` are related to the same members.
    fn row_equal(&self, i: usize, z: usize) -> (b: bool)
        requires
            self.wf(),
            i < self@.x.len(),
            z < self@.x.len(),
        ensures
            b == self@.row_equal(i as int, z as int),
    {
        let n = self.len_y();
        let mut w: usize = 0;
        while w < n
            invariant
                self.wf(),
                i < self@.x.len(),
                z < self@.x.len(),
                n == self@.y.len(),
                w <= n,
                forall|c: int|
                    0 <= c < w ==> #[trigger] self@.holds(i as int, c) == self@.holds(z as int, c),
            decreases n - w,
        {
            if self.eval_at(i, w) != self.eval_at(z, w) {
                return false;
            }
            w += 1;
        }
        true
    }

    /// Whether a member is related to everything that a different member
    /// it is related to is related to.
    fn is_transitive(&self) -> (b: bool)
        requires
            self.wf(),
        ensures
            b == self@.transitive(),
    {
        proof {
            self.lemma_view_wf();
        }
        if !self.is_homogeneous() {
            return false;
        }
        let n = self.len_x();
        let mut i: usize = 0;
        while i < n
            invariant
                self.wf(),
                self@.wf(),
                self@.homogeneous(),
                n == self@.x.len(),
                i <= n,
                forall|a: int, b: int|
                    0 <= a < i && a != b && #[trigger] self@.holds(a, b) ==> self@.row_within(b, a),
            decreases n - i,
        {
            let mut j: usize = 0;
            while j < n
                invariant
                    self.wf(),
                    self@.wf(),
                    self@.homogeneous(),
                    n == self@.x.len(),
                    i < n,
                    j <= n,
                    forall|b: int|
                        0 <= b < j && i != b && #[trigger] self@.holds(i as int, b)
                            ==> self@.row_within(b, i as int),
                decreases n - j,
            {
                if i != j && self.eval_at(i, j) {
                    if !self.row_within(j, i) {
                        proof {
                            let k = choose|k: int|
                                0 <= k < self@.y.len() && #[trigger] self@.holds(j as int, k)
                                    && !self@.holds(i as int, k);
                            assert(self@.holds(i as int, j as int) && self@.holds(j as int, k));
                        }
                        return false;
                    }
                }
                j += 1;
            }
            proof {
                assert forall|a: int, b: int|
                    0 <= a < i + 1 && a != b && #[trigger] self@.holds(a, b) implies self@.row_within(
                    b,
                    a,
                ) by {
                    if a == i {
                        assert(self@.in_range(a, b));
                    }
                }
            }
            i += 1;
        }
        proof {
            assert forall|a: int, b: int, c: int|
                a != b && #[trigger] self@.holds(a, b) && #[trigger] self@.holds(
                    b,
                    c,
                ) implies self@.holds(a, c) by {
                assert(self@.in_range(a, b));
                assert(self@.in_range(b, c));
                assert(self@.row_within(b, a));
            }
        }
        true
    }

    /// Whether the relation is irreflexive and antisymmetric.
    fn is_asymmetric(&self) -> (b: bool)
        requires
            self.wf(),
        ensures
            b == self@.asymmetric(),
    {
        self.is_irreflexive() && self.is_antisymmetric()
    }

    /// Whether the relation is reflexive and transitive.
    fn is_preorder(&self) -> (b: bool)
        requires
            self.wf(),
        ensures
            b == self@.preorder(),
    {
        self.is_reflexive() && self.is_transitive()
    }

    /// Whether the relation is a preorder and antisymmetric.
    fn is_partial_order(&self) -> (b: bool)
        requires
            self.wf(),
        ensures
            b == self@.partial_order(),
    {
        self.is_preorder() && self.is_antisymmetric()
    }

    /// Whether the relation is a preorder and symmetric.
    fn is_equivalent(&self) -> (b: bool)
        requires
            self.wf(),
        ensures
            b == self@.equivalent(),
    {
        self.is_preorder() && self.is_symmetric()
    }

    /// Whether any two members that are related to a common member are
    /// related to the same members.
    fn is_difunctional(&self) -> (b: bool)
        requires
            self.wf(),
        ensures
            b == self@.difunctional(),
    {
        proof {
            self.lemma_view_wf();
        }
        if !self.is_homogeneous() {
            return false;
        }
        let n = self.len_x();
        let mut ix: usize = 0;
        while ix < n
            invariant
                self.wf(),
                self@.wf(),
                self@.homogeneous(),
                n == self@.x.len(),
                ix <= n,
                forall|x: int, y: int, z: int|
                    0 <= x < ix && x < z < n && #[trigger] self@.holds(x, y)
                        && #[trigger] self@.holds(z, y) ==> self@.row_equal(x, z),
            decreases n - ix,
        {
            let mut iy: usize = 0;
            while iy < n
                invariant
                    self.wf(),
                    self@.wf(),
                    self@.homogeneous(),
                    n == self@.x.len(),
                    ix < n,
                    iy <= n,
                    forall|y: int, z: int|
                        0 <= y < iy && ix < z < n && self@.holds(ix as int, y)
                            && #[trigger] self@.holds(z, y) ==> self@.row_equal(ix as int, z),
                decreases n - iy,
            {
                if self.eval_at(ix, iy) {
                    let mut iz: usize = ix + 1;
                    while iz < n
                        invariant
                            self.wf(),
                            self@.wf(),
                            self@.homogeneous(),
                            n == self@.x.len(),
                            ix < n,
                            iy < n,
                            ix < iz <= n,
                            self@.holds(ix as int, iy as int),
                            forall|z: int|
                                ix < z < iz && #[trigger] self@.holds(z, iy as int)
                                    ==> self@.row_equal(ix as int, z),
                        decreases n - iz,
                    {
                        if self.eval_at(iz, iy) {
                            if !self.row_equal(ix, iz) {
                                proof {
                                    let w = choose|w: int|
                                        0 <= w < self@.y.len() && #[trigger] self@.holds(
                                            ix as int,
                                            w,
                                        ) != self@.holds(iz as int, w);
                                    if self@.holds(iz as int, w) {
                                        assert(self@.holds(ix as int, iy as int) && self@.holds(
                                            iz as int,
                                            iy as int,
                                        ) && self@.holds(iz as int, w) && !self@.holds(
                                            ix as int,
                                            w,
                                        ));
                                    } else {
                                        assert(self@.holds(iz as int, iy as int) && self@.holds(
                                            ix as int,
                                            iy as int,
                                        ) && self@.holds(ix as int, w) && !self@.holds(
                                            iz as int,
                                            w,
                                        ));
                                    }
                                }
                                return false;
                            }
                        }
                        iz += 1;
                    }
                }
                iy += 1;
            }
            proof {
                assert forall|x: int, y: int, z: int|
                    0 <= x < ix + 1 && x < z < n && #[trigger] self@.holds(x, y)
                        && #[trigger] self@.holds(z, y) implies self@.row_equal(x, z) by {
                    if x == ix {
                        assert(self@.in_range(z, y));
                    }
                }
            }
            ix += 1;
        }
        proof {
            assert forall|w: int, x: int, y: int, z: int| #[trigger]
                self@.holds(x, y) && #[trigger] self@.holds(z, y) && #[trigger] self@.holds(
                    z,
                    w,
                ) implies self@.holds(x, w) by {
                assert(self@.in_range(x, y));
                assert(self@.in_range(z, w));
                if x < z {
                    assert(self@.row_equal(x, z));
                } else if z < x {
                    assert(self@.row_equal(z, x));
                }
            }
        }
        true
    }

    /// Whether the relation orders its set as a lattice. This is not
    /// decided: the answer is always no.
    fn is_lattice(&self) -> (b: bool)
        requires
            self.wf(),
        ensures
            !b,
    {
        false
    }
}

impl Endorelation for RelationVec {

}

impl<'a> Endorelation for Empty<'a> {

}

impl<'a> Endorelation for Universal<'a> {

}

impl<'a> Endorelation for Identity<'a> {

}

impl<'a, R: Relation> Endorelation for Complement<'a, R> {

}

impl<'a, R: Relation> Endorelation for Converse<'a, R> {

}

impl<'a, P: Relation, Q: Relation> Endorelation for Concatenation<'a, P, Q> {

}

impl<'a, P: Relation, Q: Relation> Endorelation for Intersection<'a, P, Q> {

}

impl<'a, P: Relation, Q: Relation> Endorelation for Union<'a, P, Q> {

}

/// The identity relation over `domain`, whose two sets have to be the same.
pub fn identity<'a>(domain: (&'a OrderedSet, &'a OrderedSet)) -> (res:
    Result<Identity<'a>, RelationError>)
    requires
        domain.0.wf(),
        domain.1.wf(),
    ensures
        match res {
            Ok(r) => domain.0@ == domain.1@ && r.wf() && r@
                == RelationView::identity(domain.0@),
            Err(e) => domain.0@ != domain.1@ && e == RelationError::DomainMismatch,
        },
{
    Identity::over(domain)
}

/// The reflexive closure of `r`: its union with the identity on its first
/// domain. The two domains of `r` have to be the same set.
pub fn closure_reflexive<'a, R: Endorelation>(r: &'a R) -> (res: Result<
    Union<'a, R, Identity<'a>>,
    RelationError,
>)
    requires
        r.wf(),
    ensures
        match res {
            Ok(u) => r@.homogeneous() && u.wf() && u@ == r@.union(
                RelationView::identity(r@.x),
            ),
            Err(e) => !r@.homogeneous() && e == RelationError::DomainMismatch,
        },
{
    proof {
        r.lemma_view_wf();
    }
    let d = r.get_domain();
    match Identity::over(d) {
        Ok(id) => Union::with(LCow::borrowed(r), LCow::owned(id)),
        Err(e) => Err(e),
    }
}

/// The symmetric closure of `r`: its union with its converse. The two
/// domains of `r` have to be the same set.
pub fn closure_symmetric<'a, R: Endorelation>(r: &'a R) -> (res: Result<
    Union<'a, R, Converse<'a, R>>,
    RelationError,
>)
    requires
        r.wf(),
    ensures
        match res {
            Ok(u) => r@.homogeneous() && u.wf() && u@ == r@.union(r@.converse()),
            Err(e) => !r@.homogeneous() && e == RelationError::DomainMismatch,
        },
{
    Union::with(LCow::borrowed(r), LCow::owned(Converse::new(r)))
}

} // verus!
