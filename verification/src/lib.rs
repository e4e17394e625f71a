//! Finite binary relations over one or two ordered sets.
//!
//! A relation is anything that names its two domains and says, for each
//! pair of positions in them, whether the members there are related. From
//! that alone follow its properties (reflexive, transitive, injective and
//! so on), the operators that combine relations without copying them
//! (union, intersection, complement, converse, composition), and the laws
//! of their algebra, which are proved once for all relations.

pub mod cow;
pub mod element;
pub mod error;
pub mod random;
pub mod relation;
pub mod select;
pub mod set;
pub mod tex;

pub use crate::error::RelationError;
pub use crate::relation::Endorelation;
pub use crate::relation::PartialOrder;
pub use crate::relation::Relation;
pub use crate::relation::RelationVec;
pub use crate::set::OrderedSet;
pub use crate::set::SetElement;
