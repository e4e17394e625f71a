//! A relation held as a table of booleans.

use vstd::prelude::*;
use vstd::string::to_string_from_display_ensures;
use crate::element::{lemma_sorted_distinct, set_wf, ElementView};
use crate::error::RelationError;
use crate::relation::model::RelationView;
use crate::relation::laws::lemma_extensional;
use crate::relation::relation::Relation;
use crate::set::{label_of, lemma_members_view, members_view, OrderedSet, SetElement};

verus! {

/// The place of the pair `(ix, iy)` in a table stored row by row, `ny`
/// cells to the row.
pub open spec fn cell_index(ix: int, iy: int, ny: int) -> int {
    ix * ny + iy
}

/// The relation over `x` and `y` whose rows a table holds one after another.
pub open spec fn table_view(
    x: Seq<ElementView>,
    y: Seq<ElementView>,
    table: Seq<bool>,
) -> RelationView {
    RelationView::from_fn(x, y, |ix: int, iy: int| table[cell_index(ix, iy, y.len() as int)])
}

/// A row of the table begins where the row before it ends.
pub proof fn lemma_row_start(ix: int, ny: int)
    ensures
        (ix + 1) * ny == ix * ny + ny,
{
    assert((ix + 1) * ny == ix * ny + ny) by (nonlinear_arith);
}

/// Every pair of the domain has a place in the table, and the places of
/// one row lie between those of its neighbours.
pub proof fn lemma_cell_index(ix: int, iy: int, nx: int, ny: int)
    requires
        0 <= ix < nx,
        0 <= iy < ny,
    ensures
        0 <= ix * ny <= cell_index(ix, iy, ny) < (ix + 1) * ny <= nx * ny,
{
    lemma_row_start(ix, ny);
    assert((ix + 1) * ny <= nx * ny) by (nonlinear_arith)
        requires
            ix + 1 <= nx,
            0 <= ny,
    ;
    assert(0 <= ix * ny) by (nonlinear_arith)
        requires
            0 <= ix,
            0 <= ny,
    ;
}

/// Two valid relations over the same domains that agree on the pairs of
/// the domain are the same relation.
pub proof fn lemma_cells(r: RelationView, s: RelationView)
    requires
        r.wf(),
        s.wf(),
        r.same_domain(s),
        forall|ix: int, iy: int|
            r.in_range(ix, iy) ==> #[trigger] r.holds(ix, iy) == s.holds(ix, iy),
    ensures
        r == s,
{
    assert forall|ix: int, iy: int| r.holds(ix, iy) == s.holds(ix, iy) by {
        if r.holds(ix, iy) || s.holds(ix, iy) {
            assert(r.in_range(ix, iy));
        }
    }
    lemma_extensional(r, s);
}

/// An ordered set holds no member twice.
pub proof fn lemma_no_duplicates(s: Seq<ElementView>)
    requires
        set_wf(s),
    ensures
        s.no_duplicates(),
{
    assert forall|i: int, j: int| 0 <= i < s.len() && 0 <= j < s.len() && i != j implies s[i]
        != s[j] by {
        if s[i] == s[j] {
            lemma_sorted_distinct(s, i, j);
        }
    }
}

/// `labels` holds, for each item in turn, the element that is the string
/// the item is displayed as.
pub open spec fn labels_of<T: core::fmt::Display>(items: Seq<T>, labels: Seq<ElementView>) -> bool {
    &&& labels.len() == items.len()
    &&& forall|i: int| 0 <= i < items.len() ==> label_of(items[i], #[trigger] labels[i])
}

/// A relation that owns its two domains and a table with one boolean for
/// each pair of positions, stored row by row: the cell of `(ix, iy)` is
/// number `ix * |Y| + iy`.
///
/// ```text
/// let table = vec![
///     true,  false, // (0,0), (0,1),
///     false, true,  // (1,0), (1,1),
/// ];
/// ```
#[derive(Debug)]
pub struct RelationVec {
    domain: (OrderedSet, OrderedSet),
    table: Vec<bool>,
}

impl View for RelationVec {
    type V = RelationView;

    open spec fn view(&self) -> RelationView {
        table_view(self.domains().0@, self.domains().1@, self.cells())
    }
}

impl RelationVec {
    /// The two domains.
    pub closed spec fn domains(self) -> (OrderedSet, OrderedSet) {
        self.domain
    }

    /// The table, row by row.
    pub closed spec fn cells(self) -> Seq<bool> {
        self.table@
    }

    /// A relation from its domains and a table that is known to hold one
    /// cell for each pair of the domain.
    pub(crate) fn from_parts(domain: (OrderedSet, OrderedSet), table: Vec<bool>) -> (r: Self)
        requires
            domain.0.wf(),
            domain.1.wf(),
            table@.len() == domain.0@.len() * domain.1@.len(),
        ensures
            r.wf(),
            r@ == table_view(domain.0@, domain.1@, table@),
            r.cells() == table@,
    {
        RelationVec { domain, table }
    }

    /// A relation from its domains and its table. The table has to hold
    /// exactly one cell for each pair of the domain.
    pub fn new(domain: (OrderedSet, OrderedSet), table: Vec<bool>) -> (res: Result<
        Self,
        RelationError,
    >)
        requires
            domain.0.wf(),
            domain.1.wf(),
        ensures
            match res {
                Ok(r) => {
                    &&& table@.len() == domain.0@.len() * domain.1@.len()
                    &&& r.wf()
                    &&& r@ == table_view(domain.0@, domain.1@, table@)
                    &&& r.cells() == table@
                },
                Err(e) => {
                    &&& table@.len() != domain.0@.len() * domain.1@.len()
                    &&& e == RelationError::TableLengthMismatch
                },
            },
    {
        let nx = domain.0.cardinality();
        let ny = domain.1.cardinality();
        assert(0 <= nx * ny) by (nonlinear_arith)
            requires
                0 <= nx,
                0 <= ny,
        ;
        let len = table.len();
        match nx.checked_mul(ny) {
            Some(cells) => {
                if len == cells {
                    Ok(RelationVec::from_parts(domain, table))
                } else {
                    Err(RelationError::TableLengthMismatch)
                }
            },
            None => Err(RelationError::TableLengthMismatch),
        }
    }

    /// Freezes any relation into a table by asking it about every pair of
    /// its domain.
    pub fn from_relation<R: Relation>(r: &R) -> (res: Self)
        requires
            r.wf(),
        ensures
            res.wf(),
            res@ == r@,
    {
        proof {
            r.lemma_view_wf();
        }
        let d = r.get_domain();
        let nx = d.0.cardinality();
        let ny = d.1.cardinality();
        let mut table: Vec<bool> = Vec::new();
        let mut ix: usize = 0;
        while ix < nx
            invariant
                r.wf(),
                nx == r@.x.len(),
                ny == r@.y.len(),
                ix <= nx,
                table@.len() == ix * ny,
                forall|i: int, j: int|
                    0 <= i < ix && 0 <= j < ny ==> table@[#[trigger] cell_index(i, j, ny as int)]
                        == r@.holds(i, j),
            decreases nx - ix,
        {
            let mut iy: usize = 0;
            while iy < ny
                invariant
                    r.wf(),
                    nx == r@.x.len(),
                    ny == r@.y.len(),
                    ix < nx,
                    iy <= ny,
                    table@.len() == ix * ny + iy,
                    forall|i: int, j: int|
                        0 <= i < ix && 0 <= j < ny ==> table@[#[trigger] cell_index(
                            i,
                            j,
                            ny as int,
                        )] == r@.holds(i, j),
                    forall|j: int|
                        0 <= j < iy ==> table@[#[trigger] cell_index(ix as int, j, ny as int)]
                            == r@.holds(ix as int, j),
                decreases ny - iy,
            {
                let ghost before = table@;
                let b = r.eval_at(ix, iy);
                table.push(b);
                proof {
                    assert forall|i: int, j: int| 0 <= i < ix && 0 <= j < ny implies table@[#[trigger] cell_index(
                        i,
                        j,
                        ny as int,
                    )] == r@.holds(i, j) by {
                        lemma_cell_index(i, j, ix as int, ny as int);
                        assert(table@[cell_index(i, j, ny as int)] == before[cell_index(
                            i,
                            j,
                            ny as int,
                        )]);
                    }
                }
                iy += 1;
            }
            proof {
                lemma_row_start(ix as int, ny as int);
                assert forall|i: int, j: int| 0 <= i < ix + 1 && 0 <= j < ny implies table@[#[trigger] cell_index(
                    i,
                    j,
                    ny as int,
                )] == r@.holds(i, j) by {
                    if i == ix {
                    }
                }
            }
            ix += 1;
        }
        let res = RelationVec { domain: (d.0.clone(), d.1.clone()), table };
        proof {
            assert forall|pair: (int, int)| res@.pairs.contains(pair) == r@.pairs.contains(pair) by {
                let (i, j) = pair;
                if r@.holds(i, j) {
                    assert(r@.in_range(i, j));
                }
            }
            assert(res@.pairs =~= r@.pairs);
        }
        res
    }

    /// The relation over `domain` whose cell for `(ix, iy)` is what `cell`
    /// answers when called with these positions.
    pub fn from_cells<F: Fn(usize, usize) -> bool>(domain: (OrderedSet, OrderedSet), cell: F) -> (res:
        Self)
        requires
            domain.0.wf(),
            domain.1.wf(),
            forall|ix: usize, iy: usize|
                ix < domain.0@.len() && iy < domain.1@.len() ==> call_requires(cell, (ix, iy)),
        ensures
            res.wf(),
            res@.x == domain.0@,
            res@.y == domain.1@,
            forall|ix: int, iy: int|
                0 <= ix < domain.0@.len() && 0 <= iy < domain.1@.len() ==> call_ensures(
                    cell,
                    (ix as usize, iy as usize),
                    #[trigger] res@.holds(ix, iy),
                ),
    {
        let nx = domain.0.cardinality();
        let ny = domain.1.cardinality();
        let mut table: Vec<bool> = Vec::new();
        let mut ix: usize = 0;
        while ix < nx
            invariant
                nx == domain.0@.len(),
                ny == domain.1@.len(),
                ix <= nx,
                table@.len() == ix * ny,
                forall|i: usize, j: usize|
                    i < nx && j < ny ==> call_requires(cell, (i, j)),
                forall|i: usize, j: usize|
                    i < ix && j < ny ==> call_ensures(
                        cell,
                        (i, j),
                        table@[#[trigger] cell_index(i as int, j as int, ny as int)],
                    ),
            decreases nx - ix,
        {
            let mut iy: usize = 0;
            while iy < ny
                invariant
                    nx == domain.0@.len(),
                    ny == domain.1@.len(),
                    ix < nx,
                    iy <= ny,
                    table@.len() == ix * ny + iy,
                    forall|i: usize, j: usize|
                        i < nx && j < ny ==> call_requires(cell, (i, j)),
                    forall|i: usize, j: usize|
                        i < ix && j < ny ==> call_ensures(
                            cell,
                            (i, j),
                            table@[#[trigger] cell_index(i as int, j as int, ny as int)],
                        ),
                    forall|j: usize|
                        j < iy ==> call_ensures(
                            cell,
                            (ix, j),
                            table@[#[trigger] cell_index(ix as int, j as int, ny as int)],
                        ),
                decreases ny - iy,
            {
                let ghost before = table@;
                let b = cell(ix, iy);
                table.push(b);
                proof {
                    assert forall|i: usize, j: usize| i < ix && j < ny implies call_ensures(
                        cell,
                        (i, j),
                        table@[#[trigger] cell_index(i as int, j as int, ny as int)],
                    ) by {
                        lemma_cell_index(i as int, j as int, ix as int, ny as int);
                        assert(table@[cell_index(i as int, j as int, ny as int)] == before[cell_index(
                            i as int,
                            j as int,
                            ny as int,
                        )]);
                    }
                    assert forall|j: usize| j < iy + 1 implies call_ensures(
                        cell,
                        (ix, j),
                        table@[#[trigger] cell_index(ix as int, j as int, ny as int)],
                    ) by {
                        if j < iy {
                            assert(table@[cell_index(ix as int, j as int, ny as int)]
                                == before[cell_index(ix as int, j as int, ny as int)]);
                        }
                    }
                }
                iy += 1;
            }
            proof {
                lemma_row_start(ix as int, ny as int);
            }
            ix += 1;
        }
        let res = RelationVec { domain, table };
        proof {
            assert forall|i: int, j: int| 0 <= i < nx && 0 <= j < ny implies call_ensures(
                cell,
                (i as usize, j as usize),
                #[trigger] res@.holds(i, j),
            ) by {
                assert(res@.holds(i, j) == table@[cell_index(
                    i as usize as int,
                    j as usize as int,
                    ny as int,
                )]);
            }
        }
        res
    }

    /// The relation on a sequence of items that relates `x` to `y` where
    /// `predicate` accepts the pair `(x, y)`. The domain is the set of the
    /// items' labels, the strings they are displayed as. The cells follow
    /// the sequence: the cell of `(ix, iy)` is what `predicate` says of
    /// the items at `ix` and `iy`. Two items with the same label leave the
    /// domain with fewer members than the table has rows, which is
    /// refused.
    pub fn from_predicate<T: core::fmt::Display, P: Fn((&T, &T)) -> bool>(
        set: &[T],
        predicate: P,
    ) -> (res: Result<Self, RelationError>)
        requires
            forall|ix: int, iy: int|
                0 <= ix < set@.len() && 0 <= iy < set@.len() ==> call_requires(
                    predicate,
                    ((&set@[ix], &set@[iy]),),
                ),
        ensures
            exists|labels: Seq<ElementView>|
                {
                    &&& labels_of(set@, labels)
                    &&& match res {
                        Ok(r) => {
                            &&& labels.no_duplicates()
                            &&& r.wf()
                            &&& r@.homogeneous()
                            &&& r@.x.len() == set@.len()
                            &&& r@.x.to_set() == labels.to_set()
                            &&& forall|ix: int, iy: int|
                                0 <= ix < set@.len() && 0 <= iy < set@.len() ==> call_ensures(
                                    predicate,
                                    ((&set@[ix], &set@[iy]),),
                                    #[trigger] r@.holds(ix, iy),
                                )
                        },
                        Err(e) => !labels.no_duplicates() && e
                            == RelationError::TableLengthMismatch,
                    }
                },
    {
        let n = set.len();
        let mut names: Vec<SetElement> = Vec::new();
        let ghost mut labels: Seq<ElementView> = Seq::empty();
        let mut i: usize = 0;
        while i < n
            invariant
                n == set@.len(),
                i <= n,
                names@.len() == i,
                labels_of(set@.take(i as int), labels),
                forall|k: int| 0 <= k < i ==> (#[trigger] names@[k])@ == labels[k],
                forall|k: int| 0 <= k < i ==> (#[trigger] names@[k]).wf(),
            decreases n - i,
        {
            let s = set[i].to_string();
            let ghost grown = labels.push(ElementView::Str(s@));
            proof {
                assert(to_string_from_display_ensures::<T>(&set@[i as int], s));
                assert(label_of(set@[i as int], ElementView::Str(s@)));
                assert forall|k: int| 0 <= k < i + 1 implies label_of(
                    set@.take(i + 1)[k],
                    #[trigger] grown[k],
                ) by {
                    if k < i {
                        assert(set@.take(i as int)[k] == set@.take(i + 1)[k]);
                        assert(label_of(set@.take(i as int)[k], labels[k]));
                    }
                }
                labels = grown;
            }
            names.push(SetElement::Str(s));
            i += 1;
        }
        proof {
            assert(set@.take(n as int) =~= set@);
            lemma_members_view(names@, names@.len() as nat);
            assert(members_view(names@, names@.len() as nat) =~= labels);
        }
        let x = OrderedSet::from_vec(names);
        if x.cardinality() != n {
            proof {
                if labels.no_duplicates() {
                    lemma_no_duplicates(x@);
                    labels.unique_seq_to_set();
                    x@.unique_seq_to_set();
                }
            }
            return Err(RelationError::TableLengthMismatch);
        }
        proof {
            lemma_no_duplicates(x@);
            x@.unique_seq_to_set();
            labels.lemma_no_dup_set_cardinality();
        }
        let y = x.clone();
        let asked = &predicate;
        let cell = |ix: usize, iy: usize| -> (b: bool)
            requires
                ix < set@.len(),
                iy < set@.len(),
            ensures
                call_ensures(*asked, ((&set@[ix as int], &set@[iy as int]),), b),
            { asked((&set[ix], &set[iy])) };
        let r = RelationVec::from_cells((x, y), cell);
        Ok(r)
    }

    /// The empty relation on `set`.
    pub fn new_empty(set: &OrderedSet) -> (res: Self)
        requires
            set.wf(),
        ensures
            res.wf(),
            res@ == RelationView::empty(set@, set@),
    {
        let cell = |ix: usize, iy: usize| -> (b: bool)
            ensures
                !b,
            { false };
        let res = RelationVec::from_cells((set.clone(), set.clone()), cell);
        proof {
            lemma_cells(res@, RelationView::empty(set@, set@));
        }
        res
    }

    /// The universal relation on `set`.
    pub fn new_full(set: &OrderedSet) -> (res: Self)
        requires
            set.wf(),
        ensures
            res.wf(),
            res@ == RelationView::universal(set@, set@),
    {
        let cell = |ix: usize, iy: usize| -> (b: bool)
            ensures
                b,
            { true };
        let res = RelationVec::from_cells((set.clone(), set.clone()), cell);
        proof {
            lemma_cells(res@, RelationView::universal(set@, set@));
        }
        res
    }

    /// The identity relation on `set`.
    pub fn new_id(set: &OrderedSet) -> (res: Self)
        requires
            set.wf(),
        ensures
            res.wf(),
            res@ == RelationView::identity(set@),
    {
        let n = set.cardinality();
        let cell = |ix: usize, iy: usize| -> (b: bool)
            ensures
                b == (ix == iy),
            { ix == iy };
        let res = RelationVec::from_cells((set.clone(), set.clone()), cell);
        proof {
            assert forall|ix: int, iy: int| res@.in_range(ix, iy) implies #[trigger] res@.holds(
                ix,
                iy,
            ) == (ix == iy) by {
                assert(ix as usize == ix && iy as usize == iy);
            }
            lemma_cells(res@, RelationView::identity(set@));
        }
        res
    }

    /// The relation on `set` that relates each member to itself and to
    /// the members after it.
    pub fn new_top(set: &OrderedSet) -> (res: Self)
        requires
            set.wf(),
        ensures
            res.wf(),
            res@ == RelationView::from_fn(set@, set@, |ix: int, iy: int| ix <= iy),
    {
        let n = set.cardinality();
        let cell = |ix: usize, iy: usize| -> (b: bool)
            ensures
                b == (ix <= iy),
            { ix <= iy };
        let res = RelationVec::from_cells((set.clone(), set.clone()), cell);
        proof {
            assert forall|ix: int, iy: int| res@.in_range(ix, iy) implies #[trigger] res@.holds(
                ix,
                iy,
            ) == (ix <= iy) by {
                assert(ix as usize == ix && iy as usize == iy);
            }
            lemma_cells(res@, RelationView::from_fn(set@, set@, |ix: int, iy: int| ix <= iy));
        }
        res
    }

    /// The relation on `set` that relates each member to itself and to
    /// the members before it.
    pub fn new_bottom(set: &OrderedSet) -> (res: Self)
        requires
            set.wf(),
        ensures
            res.wf(),
            res@ == RelationView::from_fn(set@, set@, |ix: int, iy: int| ix >= iy),
    {
        let n = set.cardinality();
        let cell = |ix: usize, iy: usize| -> (b: bool)
            ensures
                b == (ix >= iy),
            { ix >= iy };
        let res = RelationVec::from_cells((set.clone(), set.clone()), cell);
        proof {
            assert forall|ix: int, iy: int| res@.in_range(ix, iy) implies #[trigger] res@.holds(
                ix,
                iy,
            ) == (ix >= iy) by {
                assert(ix as usize == ix && iy as usize == iy);
            }
            lemma_cells(res@, RelationView::from_fn(set@, set@, |ix: int, iy: int| ix >= iy));
        }
        res
    }

    /// The place of `(ix, iy)` in the table.
    pub fn get_table_index(&self, ix: usize, iy: usize) -> (i: usize)
        requires
            self.wf(),
            self@.in_range(ix as int, iy as int),
        ensures
            i == cell_index(ix as int, iy as int, self@.y.len() as int),
            i < self.cells().len(),
    {
        let ny = self.domain.1.cardinality();
        let cells = self.table.len();
        proof {
            let nx = self.domain.0@.len() as int;
            lemma_cell_index(ix as int, iy as int, nx, ny as int);
            assert(self.table@.len() == nx * ny);
        }
        ix * ny + iy
    }

    /// The table, row by row.
    pub fn table(&self) -> (t: &Vec<bool>)
        ensures
            t@ == self.cells(),
    {
        &self.table
    }
}

impl Clone for RelationVec {
    /// A copy with the same domains and the same table.
    fn clone(&self) -> (res: RelationVec)
        ensures
            res@ == self@,
            res.cells() == self.cells(),
            self.wf() ==> res.wf(),
    {
        let table = self.table.clone();
        assert(table@ =~= self.table@);
        RelationVec { domain: (self.domain.0.clone(), self.domain.1.clone()), table }
    }
}

impl Relation for RelationVec {
    open spec fn wf(&self) -> bool {
        &&& self.domains().0.wf()
        &&& self.domains().1.wf()
        &&& self.cells().len() == self.domains().0@.len() * self.domains().1@.len()
    }

    proof fn lemma_view_wf(&self) {
    }

    fn get_domain(&self) -> (d: (&OrderedSet, &OrderedSet)) {
        (&self.domain.0, &self.domain.1)
    }

    fn eval_at(&self, ix: usize, iy: usize) -> (b: bool) {
        let i = self.get_table_index(ix, iy);
        self.table[i]
    }
}

} // verus!
