//! The ways in which a relation can be misused.

use vstd::prelude::*;

verus! {

/// A violated contract of the relation algebra.
#[derive(Clone, Copy, Debug, PartialEq, Eq, Structural)]
pub enum RelationError {
    /// An index pair lies outside the domain of the relation.
    IndexOutOfRange,
    /// An element is not a member of the domain it was looked up in.
    ElementNotFound,
    /// The operands of a combinator range over incompatible domains.
    DomainMismatch,
    /// An incidence table does not have one cell per pair of the domain.
    TableLengthMismatch,
}

} // verus!
