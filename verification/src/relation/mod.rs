//! Relations, their properties and their operators.

pub mod endorelation;
pub mod laws;
pub mod model;
pub mod operators;
pub mod partial_order;
pub mod relation;
pub mod relation_vec;

pub use endorelation::Endorelation;
pub use partial_order::PartialOrder;
pub use operators::{
    Complement, Concatenation, Converse, Empty, Identity, Intersection, Union, Universal,
};
pub use relation::{eq, neq, Relation};
pub use relation_vec::RelationVec;
