//! Relations drawn at random.

use vstd::prelude::*;
use rand::distributions::Distribution;
use crate::relation::model::RelationView;
use crate::relation::relation::Relation;
use crate::relation::relation_vec::{lemma_cell_index, lemma_cells, lemma_row_start, RelationVec};
use crate::set::OrderedSet;

verus! {

/// The generator of random numbers that belongs to the running thread.
#[verifier::external_type_specification]
#[verifier::external_body]
pub struct ExThreadRng(rand::rngs::ThreadRng);

/// `rand::thread_rng`: a handle to the generator of the running thread.
/// Nothing is claimed of it. It panics where the system has no entropy to
/// seed the generator with, which no argument decides.
#[verifier::external_body]
fn thread_rng() -> rand::rngs::ThreadRng {
    rand::thread_rng()
}

/// `rand::distributions::Bernoulli::from_ratio` and the `sample` of the
/// distribution it makes: one draw that is true with probability
/// `numerator / denominator`. A ratio of zero never gives true, and a ratio
/// of one always does; for any other ratio both outcomes are possible.
/// `from_ratio` panics on a numerator above the denominator and is
/// documented to panic on a denominator of zero: both are excluded.
#[verifier::external_body]
fn bernoulli_draw(rng: &mut rand::rngs::ThreadRng, numerator: u32, denominator: u32) -> (b: bool)
    requires
        denominator > 0,
        numerator <= denominator,
    ensures
        numerator == 0 ==> !b,
        numerator == denominator ==> b,
{
    rand::distributions::Bernoulli::from_ratio(numerator, denominator).sample(rng)
}

/// A random relation over `domain` of density `numerator / denominator`:
/// each pair is related with that probability, independently of the
/// others. A density of zero gives the empty relation and a density of one
/// the universal relation.
pub fn generate_random(domain: (OrderedSet, OrderedSet), numerator: u32, denominator: u32) -> (r:
    RelationVec)
    requires
        domain.0.wf(),
        domain.1.wf(),
        denominator > 0,
        numerator <= denominator,
    ensures
        r.wf(),
        r@.x == domain.0@,
        r@.y == domain.1@,
        numerator == 0 ==> r@ == RelationView::empty(domain.0@, domain.1@),
        numerator == denominator ==> r@ == RelationView::universal(domain.0@, domain.1@),
{
    let nx = domain.0.cardinality();
    let ny = domain.1.cardinality();
    let mut rng = thread_rng();
    let mut table: Vec<bool> = Vec::new();
    let mut ix: usize = 0;
    while ix < nx
        invariant
            nx == domain.0@.len(),
            ny == domain.1@.len(),
            denominator > 0,
            numerator <= denominator,
            ix <= nx,
            table@.len() == ix * ny,
            numerator == 0 ==> forall|k: int| 0 <= k < table@.len() ==> !table@[k],
            numerator == denominator ==> forall|k: int| 0 <= k < table@.len() ==> table@[k],
        decreases nx - ix,
    {
        let mut iy: usize = 0;
        while iy < ny
            invariant
                nx == domain.0@.len(),
                ny == domain.1@.len(),
                denominator > 0,
                numerator <= denominator,
                ix < nx,
                iy <= ny,
                table@.len() == ix * ny + iy,
                numerator == 0 ==> forall|k: int| 0 <= k < table@.len() ==> !table@[k],
                numerator == denominator ==> forall|k: int| 0 <= k < table@.len() ==> table@[k],
            decreases ny - iy,
        {
            let b = bernoulli_draw(&mut rng, numerator, denominator);
            table.push(b);
            iy += 1;
        }
        proof {
            lemma_row_start(ix as int, ny as int);
        }
        ix += 1;
    }
    let ghost cells = table@;
    let ghost x = domain.0@;
    let ghost y = domain.1@;
    let r = RelationVec::from_parts(domain, table);
    proof {
        if numerator == 0 {
            assert forall|i: int, j: int| r@.in_range(i, j) implies #[trigger] r@.holds(i, j)
                == RelationView::empty(x, y).holds(i, j) by {
                lemma_cell_index(i, j, x.len() as int, y.len() as int);
            }
            lemma_cells(r@, RelationView::empty(x, y));
        }
        if numerator == denominator {
            assert forall|i: int, j: int| r@.in_range(i, j) implies #[trigger] r@.holds(i, j)
                == RelationView::universal(x, y).holds(i, j) by {
                lemma_cell_index(i, j, x.len() as int, y.len() as int);
            }
            lemma_cells(r@, RelationView::universal(x, y));
        }
    }
    r
}

} // verus!
