//! Relations as LaTeX arrays.

use vstd::prelude::*;
use crate::element::{element_text, ElementView};
use crate::relation::model::RelationView;
use crate::relation::relation::Relation;

verus! {

/// `n` times the letter `c`: one column of the array for each.
pub open spec fn columns_text(n: nat) -> Seq<char>
    decreases n,
{
    if n == 0 {
        Seq::empty()
    } else {
        columns_text((n - 1) as nat) + "c"@
    }
}

/// The labels of the first `n` members of `y`, each behind ` & `.
pub open spec fn header_text(y: Seq<ElementView>, n: nat) -> Seq<char>
    decreases n,
{
    if n == 0 || n > y.len() {
        Seq::empty()
    } else {
        header_text(y, (n - 1) as nat) + " & "@ + element_text(y[n - 1])
    }
}

/// One cell: `\true ` or `\false`, six characters either way.
pub open spec fn cell_text(b: bool) -> Seq<char> {
    if b {
        "\\true "@
    } else {
        "\\false"@
    }
}

/// The first `n` cells of row `ix`, each behind ` & `.
pub open spec fn cells_text(r: RelationView, ix: int, n: nat) -> Seq<char>
    decreases n,
{
    if n == 0 {
        Seq::empty()
    } else {
        cells_text(r, ix, (n - 1) as nat) + " & "@ + cell_text(r.holds(ix, n - 1))
    }
}

/// Row `ix`: the label of the member and a cell for each member of the
/// second domain.
pub open spec fn row_text(r: RelationView, ix: int) -> Seq<char> {
    element_text(r.x[ix]) + cells_text(r, ix, r.y.len())
}

/// The first `n` rows, with ` \\` and a line break between neighbours.
pub open spec fn rows_text(r: RelationView, n: nat) -> Seq<char>
    decreases n,
{
    if n == 0 {
        Seq::empty()
    } else if n == 1 {
        row_text(r, 0)
    } else {
        rows_text(r, (n - 1) as nat) + " \\\\\n"@ + row_text(r, n - 1)
    }
}

/// A relation as a LaTeX `array`: a column for the labels of the rows and
/// one for each member of the first domain, a header line with the labels
/// of the second domain, and a row for each member of the first domain.
pub open spec fn tex_text(r: RelationView) -> Seq<char> {
    "\\begin{array}{c|"@ + columns_text(r.x.len()) + "}\n"@ + header_text(r.y, r.y.len())
        + " \\\\ \\hline\n"@ + rows_text(r, r.x.len()) + "\n\\end{array}"@
}

/// A relation that is to be written as a LaTeX array.
pub struct TeXWrapper<'a, R: Relation>(pub &'a R);

impl<'a, R: Relation> TeXWrapper<'a, R> {
    /// The relation that is wrapped.
    pub open spec fn relation(self) -> R {
        *self.0
    }

    /// The text of the array.
    pub fn to_string(&self) -> (s: String)
        requires
            self.relation().wf(),
        ensures
            s@ == tex_text(self.relation()@),
    {
        let r = self.0;
        let d = r.get_domain();
        let nx = d.0.cardinality();
        let ny = d.1.cardinality();
        let mut out = String::from_str("\\begin{array}{c|");
        let mut k: usize = 0;
        while k < nx
            invariant
                k <= nx,
                out@ == "\\begin{array}{c|"@ + columns_text(k as nat),
            decreases nx - k,
        {
            out.append("c");
            assert(out@ =~= "\\begin{array}{c|"@ + (columns_text(k as nat) + "c"@));
            k += 1;
        }
        out.append("}\n");
        let ghost top = out@;
        let mut iy: usize = 0;
        while iy < ny
            invariant
                ny == r@.y.len(),
                d.1@ == r@.y,
                iy <= ny,
                out@ == top + header_text(r@.y, iy as nat),
            decreases ny - iy,
        {
            out.append(" & ");
            let label = d.1.get(iy).to_string();
            out.append(label.as_str());
            assert(out@ =~= top + (header_text(r@.y, iy as nat) + " & "@ + element_text(
                r@.y[iy as int],
            )));
            iy += 1;
        }
        out.append(" \\\\ \\hline\n");
        let ghost head = out@;
        let mut ix: usize = 0;
        while ix < nx
            invariant
                r.wf(),
                nx == r@.x.len(),
                ny == r@.y.len(),
                d.0@ == r@.x,
                ix <= nx,
                out@ == head + rows_text(r@, ix as nat),
            decreases nx - ix,
        {
            if ix > 0 {
                out.append(" \\\\\n");
            }
            let ghost start = out@;
            let label = d.0.get(ix).to_string();
            out.append(label.as_str());
            let mut iy: usize = 0;
            while iy < ny
                invariant
                    r.wf(),
                    nx == r@.x.len(),
                    ny == r@.y.len(),
                    ix < nx,
                    iy <= ny,
                    out@ == start + element_text(r@.x[ix as int]) + cells_text(
                        r@,
                        ix as int,
                        iy as nat,
                    ),
                decreases ny - iy,
            {
                out.append(" & ");
                if r.eval_at(ix, iy) {
                    out.append("\\true ");
                } else {
                    out.append("\\false");
                }
                assert(out@ =~= start + element_text(r@.x[ix as int]) + (cells_text(
                    r@,
                    ix as int,
                    iy as nat,
                ) + " & "@ + cell_text(r@.holds(ix as int, iy as int))));
                iy += 1;
            }
            proof {
                let prior = rows_text(r@, ix as nat);
                let row = row_text(r@, ix as int);
                if ix > 0 {
                    assert(out@ =~= head + (prior + " \\\\\n"@ + row));
                } else {
                    assert(prior =~= Seq::<char>::empty());
                    assert(out@ =~= head + row);
                }
            }
            ix += 1;
        }
        out.append("\n\\end{array}");
        out
    }
}

/// Wraps a relation for writing it as a LaTeX array, with `\true` and
/// `\false` for the cells, so that the document decides how they look.
///
/// ```text
/// \begin{array}{c|cccc}
///  & 1 & 2 & 3 & 4 \\ \hline
/// 1 & \false & \true  & \true  & \true  \\
/// 2 & \false & \false & \true  & \true  \\
/// 3 & \false & \false & \false & \true  \\
/// 4 & \false & \false & \false & \false
/// \end{array}
/// ```
pub trait ToTex<R: Relation> {
    /// The wrapped relation.
    fn to_tex(&self) -> TeXWrapper<'_, R>;
}

impl<R: Relation> ToTex<R> for R {
    fn to_tex(&self) -> (w: TeXWrapper<'_, R>)
        ensures
            w.relation() == *self,
    {
        TeXWrapper(self)
    }
}

} // verus!
