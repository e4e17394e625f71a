//! The operators of the relation algebra. Each is a relation that asks
//! its operands when it is asked, and holds no table of its own.

use vstd::prelude::*;
use crate::cow::LCow;
use crate::error::RelationError;
use crate::relation::model::RelationView;
use crate::relation::relation::Relation;
use crate::set::OrderedSet;

verus! {

/// The relation over a pair of domains that relates nothing.
#[derive(Debug)]
pub struct Empty<'a> {
    domain: (&'a OrderedSet, &'a OrderedSet),
}

impl<'a> Empty<'a> {
    /// The two domains.
    pub closed spec fn domains(self) -> (OrderedSet, OrderedSet) {
        (*self.domain.0, *self.domain.1)
    }

    /// The empty relation on `set`.
    pub fn new(set: &'a OrderedSet) -> (r: Self)
        requires
            set.wf(),
        ensures
            r.wf(),
            r@ == RelationView::empty(set@, set@),
    {
        Empty { domain: (set, set) }
    }

    /// The empty relation between the two sets of `domain`.
    pub fn over(domain: (&'a OrderedSet, &'a OrderedSet)) -> (r: Self)
        requires
            domain.0.wf(),
            domain.1.wf(),
        ensures
            r.wf(),
            r@ == RelationView::empty(domain.0@, domain.1@),
    {
        Empty { domain }
    }
}

impl<'a> View for Empty<'a> {
    type V = RelationView;

    open spec fn view(&self) -> RelationView {
        RelationView::empty(self.domains().0@, self.domains().1@)
    }
}

impl<'a> Relation for Empty<'a> {
    open spec fn wf(&self) -> bool {
        self.domains().0.wf() && self.domains().1.wf()
    }

    proof fn lemma_view_wf(&self) {
    }

    fn get_domain(&self) -> (d: (&OrderedSet, &OrderedSet)) {
        self.domain
    }

    fn eval_at(&self, _ix: usize, _iy: usize) -> (b: bool) {
        false
    }
}

/// The relation over a pair of domains that relates every member of the
/// first to every member of the second.
#[derive(Debug)]
pub struct Universal<'a> {
    domain: (&'a OrderedSet, &'a OrderedSet),
}

impl<'a> Universal<'a> {
    /// The two domains.
    pub closed spec fn domains(self) -> (OrderedSet, OrderedSet) {
        (*self.domain.0, *self.domain.1)
    }

    /// The universal relation on `set`.
    pub fn new(set: &'a OrderedSet) -> (r: Self)
        requires
            set.wf(),
        ensures
            r.wf(),
            r@ == RelationView::universal(set@, set@),
    {
        Universal { domain: (set, set) }
    }

    /// The universal relation between the two sets of `domain`.
    pub fn over(domain: (&'a OrderedSet, &'a OrderedSet)) -> (r: Self)
        requires
            domain.0.wf(),
            domain.1.wf(),
        ensures
            r.wf(),
            r@ == RelationView::universal(domain.0@, domain.1@),
    {
        Universal { domain }
    }
}

impl<'a> View for Universal<'a> {
    type V = RelationView;

    open spec fn view(&self) -> RelationView {
        RelationView::universal(self.domains().0@, self.domains().1@)
    }
}

impl<'a> Relation for Universal<'a> {
    open spec fn wf(&self) -> bool {
        self.domains().0.wf() && self.domains().1.wf()
    }

    proof fn lemma_view_wf(&self) {
    }

    fn get_domain(&self) -> (d: (&OrderedSet, &OrderedSet)) {
        self.domain
    }

    fn eval_at(&self, _ix: usize, _iy: usize) -> (b: bool) {
        true
    }
}

/// The relation on one set that relates each member to itself only.
#[derive(Debug)]
pub struct Identity<'a> {
    set: &'a OrderedSet,
}

impl<'a> Identity<'a> {
    /// The set whose members are related to themselves.
    pub closed spec fn domain(self) -> OrderedSet {
        *self.set
    }

    /// The identity relation on `set`.
    pub fn new(set: &'a OrderedSet) -> (r: Self)
        requires
            set.wf(),
        ensures
            r.wf(),
            r@ == RelationView::identity(set@),
    {
        Identity { set }
    }

    /// The identity relation over `domain`, whose two sets have to be the
    /// same.
    pub fn over(domain: (&'a OrderedSet, &'a OrderedSet)) -> (res: Result<Self, RelationError>)
        requires
            domain.0.wf(),
            domain.1.wf(),
        ensures
            match res {
                Ok(r) => domain.0@ == domain.1@ && r.wf() && r@ == RelationView::identity(domain.0@),
                Err(e) => domain.0@ != domain.1@ && e == RelationError::DomainMismatch,
            },
    {
        if domain.0.equals(domain.1) {
            Ok(Identity { set: domain.0 })
        } else {
            Err(RelationError::DomainMismatch)
        }
    }
}

impl<'a> View for Identity<'a> {
    type V = RelationView;

    open spec fn view(&self) -> RelationView {
        RelationView::identity(self.domain()@)
    }
}

impl<'a> Relation for Identity<'a> {
    open spec fn wf(&self) -> bool {
        self.domain().wf()
    }

    proof fn lemma_view_wf(&self) {
    }

    fn get_domain(&self) -> (d: (&OrderedSet, &OrderedSet)) {
        (self.set, self.set)
    }

    fn eval_at(&self, ix: usize, iy: usize) -> (b: bool) {
        ix == iy
    }
}

/// The relation that relates the pairs which its operand does not.
#[derive(Debug)]
pub struct Complement<'a, R: Relation> {
    r: LCow<'a, R>,
}

impl<'a, R: Relation> Complement<'a, R> {
    /// The operand.
    pub closed spec fn operand(self) -> R {
        self.r.value()
    }

    /// The complement of `r`.
    pub fn new(r: &'a R) -> (c: Self)
        requires
            r.wf(),
        ensures
            c.wf(),
            c@ == r@.complement(),
            c.operand() == *r,
    {
        Complement { r: LCow::borrowed(r) }
    }

    /// The complement of an operand that is borrowed or owned.
    pub fn with(r: LCow<'a, R>) -> (c: Self)
        requires
            r.value().wf(),
        ensures
            c.wf(),
            c@ == r.value()@.complement(),
            c.operand() == r.value(),
    {
        Complement { r }
    }
}

impl<'a, R: Relation> View for Complement<'a, R> {
    type V = RelationView;

    open spec fn view(&self) -> RelationView {
        self.operand()@.complement()
    }
}

impl<'a, R: Relation> Relation for Complement<'a, R> {
    open spec fn wf(&self) -> bool {
        self.operand().wf()
    }

    proof fn lemma_view_wf(&self) {
        self.operand().lemma_view_wf();
    }

    fn get_domain(&self) -> (d: (&OrderedSet, &OrderedSet)) {
        self.r.get().get_domain()
    }

    fn eval_at(&self, ix: usize, iy: usize) -> (b: bool) {
        !self.r.get().eval_at(ix, iy)
    }
}

/// The relation of its operand read backwards.
#[derive(Debug)]
pub struct Converse<'a, R: Relation> {
    r: LCow<'a, R>,
}

impl<'a, R: Relation> Converse<'a, R> {
    /// The operand.
    pub closed spec fn operand(self) -> R {
        self.r.value()
    }

    /// The converse of `r`.
    pub fn new(r: &'a R) -> (c: Self)
        requires
            r.wf(),
        ensures
            c.wf(),
            c@ == r@.converse(),
            c.operand() == *r,
    {
        Converse { r: LCow::borrowed(r) }
    }

    /// The converse of an operand that is borrowed or owned.
    pub fn with(r: LCow<'a, R>) -> (c: Self)
        requires
            r.value().wf(),
        ensures
            c.wf(),
            c@ == r.value()@.converse(),
            c.operand() == r.value(),
    {
        Converse { r }
    }
}

impl<'a, R: Relation> View for Converse<'a, R> {
    type V = RelationView;

    open spec fn view(&self) -> RelationView {
        self.operand()@.converse()
    }
}

impl<'a, R: Relation> Relation for Converse<'a, R> {
    open spec fn wf(&self) -> bool {
        self.operand().wf()
    }

    proof fn lemma_view_wf(&self) {
        self.operand().lemma_view_wf();
    }

    fn get_domain(&self) -> (d: (&OrderedSet, &OrderedSet)) {
        let d = self.r.get().get_domain();
        (d.1, d.0)
    }

    fn eval_at(&self, ix: usize, iy: usize) -> (b: bool) {
        self.r.get().eval_at(iy, ix)
    }
}

/// Whether two relations range over the same pair of domains.
pub fn same_domain<P: Relation, Q: Relation>(p: &P, q: &Q) -> (b: bool)
    requires
        p.wf(),
        q.wf(),
    ensures
        b == p@.same_domain(q@),
{
    let dp = p.get_domain();
    let dq = q.get_domain();
    dp.0.equals(dq.0) && dp.1.equals(dq.1)
}

/// The relation that relates what either of its operands relates.
#[derive(Debug)]
pub struct Union<'a, P: Relation, Q: Relation> {
    p: LCow<'a, P>,
    q: LCow<'a, Q>,
}

impl<'a, P: Relation, Q: Relation> Union<'a, P, Q> {
    /// The first operand.
    pub closed spec fn left(self) -> P {
        self.p.value()
    }

    /// The second operand.
    pub closed spec fn right(self) -> Q {
        self.q.value()
    }

    /// The union of `p` and `q`, which have to range over the same domains.
    pub fn new(p: &'a P, q: &'a Q) -> (res: Result<Self, RelationError>)
        requires
            p.wf(),
            q.wf(),
        ensures
            match res {
                Ok(u) => p@.same_domain(q@) && u.wf() && u@ == p@.union(q@),
                Err(e) => !p@.same_domain(q@) && e == RelationError::DomainMismatch,
            },
    {
        Union::with(LCow::borrowed(p), LCow::borrowed(q))
    }

    /// The union of two operands, each borrowed or owned.
    pub fn with(p: LCow<'a, P>, q: LCow<'a, Q>) -> (res: Result<Self, RelationError>)
        requires
            p.value().wf(),
            q.value().wf(),
        ensures
            match res {
                Ok(u) => p.value()@.same_domain(q.value()@) && u.wf() && u@ == p.value()@.union(
                    q.value()@,
                ),
                Err(e) => !p.value()@.same_domain(q.value()@) && e == RelationError::DomainMismatch,
            },
    {
        if same_domain(p.get(), q.get()) {
            Ok(Union { p, q })
        } else {
            Err(RelationError::DomainMismatch)
        }
    }
}

impl<'a, P: Relation, Q: Relation> View for Union<'a, P, Q> {
    type V = RelationView;

    open spec fn view(&self) -> RelationView {
        self.left()@.union(self.right()@)
    }
}

impl<'a, P: Relation, Q: Relation> Relation for Union<'a, P, Q> {
    open spec fn wf(&self) -> bool {
        self.left().wf() && self.right().wf() && self.left()@.same_domain(self.right()@)
    }

    proof fn lemma_view_wf(&self) {
        self.left().lemma_view_wf();
        self.right().lemma_view_wf();
    }

    fn get_domain(&self) -> (d: (&OrderedSet, &OrderedSet)) {
        self.p.get().get_domain()
    }

    fn eval_at(&self, ix: usize, iy: usize) -> (b: bool) {
        self.p.get().eval_at(ix, iy) || self.q.get().eval_at(ix, iy)
    }
}

/// The relation that relates what both of its operands relate.
#[derive(Debug)]
pub struct Intersection<'a, P: Relation, Q: Relation> {
    p: LCow<'a, P>,
    q: LCow<'a, Q>,
}

impl<'a, P: Relation, Q: Relation> Intersection<'a, P, Q> {
    /// The first operand.
    pub closed spec fn left(self) -> P {
        self.p.value()
    }

    /// The second operand.
    pub closed spec fn right(self) -> Q {
        self.q.value()
    }

    /// The intersection of `p` and `q`, which have to range over the same
    /// domains.
    pub fn new(p: &'a P, q: &'a Q) -> (res: Result<Self, RelationError>)
        requires
            p.wf(),
            q.wf(),
        ensures
            match res {
                Ok(u) => p@.same_domain(q@) && u.wf() && u@ == p@.intersection(q@),
                Err(e) => !p@.same_domain(q@) && e == RelationError::DomainMismatch,
            },
    {
        Intersection::with(LCow::borrowed(p), LCow::borrowed(q))
    }

    /// The intersection of two operands, each borrowed or owned.
    pub fn with(p: LCow<'a, P>, q: LCow<'a, Q>) -> (res: Result<Self, RelationError>)
        requires
            p.value().wf(),
            q.value().wf(),
        ensures
            match res {
                Ok(u) => p.value()@.same_domain(q.value()@) && u.wf() && u@
                    == p.value()@.intersection(q.value()@),
                Err(e) => !p.value()@.same_domain(q.value()@) && e == RelationError::DomainMismatch,
            },
    {
        if same_domain(p.get(), q.get()) {
            Ok(Intersection { p, q })
        } else {
            Err(RelationError::DomainMismatch)
        }
    }
}

impl<'a, P: Relation, Q: Relation> View for Intersection<'a, P, Q> {
    type V = RelationView;

    open spec fn view(&self) -> RelationView {
        self.left()@.intersection(self.right()@)
    }
}

impl<'a, P: Relation, Q: Relation> Relation for Intersection<'a, P, Q> {
    open spec fn wf(&self) -> bool {
        self.left().wf() && self.right().wf() && self.left()@.same_domain(self.right()@)
    }

    proof fn lemma_view_wf(&self) {
        self.left().lemma_view_wf();
        self.right().lemma_view_wf();
    }

    fn get_domain(&self) -> (d: (&OrderedSet, &OrderedSet)) {
        self.p.get().get_domain()
    }

    fn eval_at(&self, ix: usize, iy: usize) -> (b: bool) {
        self.p.get().eval_at(ix, iy) && self.q.get().eval_at(ix, iy)
    }
}

/// The composition of two relations through a domain they share: the
/// first operand, then the second.
#[derive(Debug)]
pub struct Concatenation<'a, P: Relation, Q: Relation> {
    p: LCow<'a, P>,
    q: LCow<'a, Q>,
}

impl<'a, P: Relation, Q: Relation> Concatenation<'a, P, Q> {
    /// The first operand.
    pub closed spec fn left(self) -> P {
        self.p.value()
    }

    /// The second operand.
    pub closed spec fn right(self) -> Q {
        self.q.value()
    }

    /// The composition of `p` and `q`; the second domain of `p` has to be
    /// the first domain of `q`.
    pub fn new(p: &'a P, q: &'a Q) -> (res: Result<Self, RelationError>)
        requires
            p.wf(),
            q.wf(),
        ensures
            match res {
                Ok(c) => p@.y == q@.x && c.wf() && c@ == p@.concatenation(q@),
                Err(e) => p@.y != q@.x && e == RelationError::DomainMismatch,
            },
    {
        Concatenation::with(LCow::borrowed(p), LCow::borrowed(q))
    }

    /// The composition of two operands, each borrowed or owned.
    pub fn with(p: LCow<'a, P>, q: LCow<'a, Q>) -> (res: Result<Self, RelationError>)
        requires
            p.value().wf(),
            q.value().wf(),
        ensures
            match res {
                Ok(c) => p.value()@.y == q.value()@.x && c.wf() && c@ == p.value()@.concatenation(
                    q.value()@,
                ),
                Err(e) => p.value()@.y != q.value()@.x && e == RelationError::DomainMismatch,
            },
    {
        if p.get().get_domain().1.equals(q.get().get_domain().0) {
            Ok(Concatenation { p, q })
        } else {
            Err(RelationError::DomainMismatch)
        }
    }
}

impl<'a, P: Relation, Q: Relation> View for Concatenation<'a, P, Q> {
    type V = RelationView;

    open spec fn view(&self) -> RelationView {
        self.left()@.concatenation(self.right()@)
    }
}

impl<'a, P: Relation, Q: Relation> Relation for Concatenation<'a, P, Q> {
    open spec fn wf(&self) -> bool {
        self.left().wf() && self.right().wf() && self.left()@.y == self.right()@.x
    }

    proof fn lemma_view_wf(&self) {
        self.left().lemma_view_wf();
        self.right().lemma_view_wf();
    }

    fn get_domain(&self) -> (d: (&OrderedSet, &OrderedSet)) {
        (self.p.get().get_domain().0, self.q.get().get_domain().1)
    }

    fn eval_at(&self, ix: usize, iz: usize) -> (b: bool) {
        let p = self.p.get();
        let q = self.q.get();
        let ny = p.len_y();
        let mut iy: usize = 0;
        while iy < ny
            invariant
                p.wf(),
                q.wf(),
                p@.y == q@.x,
                *p == self.left(),
                *q == self.right(),
                ix < p@.x.len(),
                iz < q@.y.len(),
                ny == p@.y.len(),
                iy <= ny,
                forall|j: int| 0 <= j < iy ==> !(p@.holds(ix as int, j) && #[trigger] q@.holds(j, iz as int)),
            decreases ny - iy,
        {
            if p.eval_at(ix, iy) && q.eval_at(iy, iz) {
                assert(p@.linked(q@, ix as int, iz as int));
                return true;
            }
            iy += 1;
        }
        assert(!p@.linked(q@, ix as int, iz as int));
        false
    }
}

/// The empty relation between the two sets of `domain`.
pub fn empty<'a>(domain: (&'a OrderedSet, &'a OrderedSet)) -> (r: Empty<'a>)
    requires
        domain.0.wf(),
        domain.1.wf(),
    ensures
        r.wf(),
        r@ == RelationView::empty(domain.0@, domain.1@),
{
    Empty::over(domain)
}

/// The universal relation between the two sets of `domain`.
pub fn universal<'a>(domain: (&'a OrderedSet, &'a OrderedSet)) -> (r: Universal<'a>)
    requires
        domain.0.wf(),
        domain.1.wf(),
    ensures
        r.wf(),
        r@ == RelationView::universal(domain.0@, domain.1@),
{
    Universal::over(domain)
}

/// The complement of `r`: `x` is related to `y` where `r` does not relate
/// them.
pub fn complement<'a, R: Relation>(r: &'a R) -> (c: Complement<'a, R>)
    requires
        r.wf(),
    ensures
        c.wf(),
        c@ == r@.complement(),
{
    Complement::new(r)
}

/// The converse of `r`: `y` is related to `x` where `r` relates `x` to
/// `y`.
pub fn converse<'a, R: Relation>(r: &'a R) -> (c: Converse<'a, R>)
    requires
        r.wf(),
    ensures
        c.wf(),
        c@ == r@.converse(),
{
    Converse::new(r)
}

/// The composition of `p` and `q`: `x` is related to `z` where `p`
/// relates `x` to some `y` that `q` relates to `z`.
pub fn concatenation<'a, P: Relation, Q: Relation>(p: &'a P, q: &'a Q) -> (res: Result<
    Concatenation<'a, P, Q>,
    RelationError,
>)
    requires
        p.wf(),
        q.wf(),
    ensures
        match res {
            Ok(c) => p@.y == q@.x && c.wf() && c@ == p@.concatenation(q@),
            Err(e) => p@.y != q@.x && e == RelationError::DomainMismatch,
        },
{
    Concatenation::new(p, q)
}

/// The intersection of `p` and `q`: what both relate.
pub fn intersection<'a, P: Relation, Q: Relation>(p: &'a P, q: &'a Q) -> (res: Result<
    Intersection<'a, P, Q>,
    RelationError,
>)
    requires
        p.wf(),
        q.wf(),
    ensures
        match res {
            Ok(u) => p@.same_domain(q@) && u.wf() && u@ == p@.intersection(q@),
            Err(e) => !p@.same_domain(q@) && e == RelationError::DomainMismatch,
        },
{
    Intersection::new(p, q)
}

/// The union of `p` and `q`: what either relates.
pub fn union<'a, P: Relation, Q: Relation>(p: &'a P, q: &'a Q) -> (res: Result<
    Union<'a, P, Q>,
    RelationError,
>)
    requires
        p.wf(),
        q.wf(),
    ensures
        match res {
            Ok(u) => p@.same_domain(q@) && u.wf() && u@ == p@.union(q@),
            Err(e) => !p@.same_domain(q@) && e == RelationError::DomainMismatch,
        },
{
    Union::new(p, q)
}

} // verus!
