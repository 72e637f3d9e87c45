//! Generic traversals that query, mutate in place, or transform values of
//! any type, wherever they occur inside a data structure.
pub mod company;
pub mod fold;
pub mod laws;
pub mod mutation;
pub mod query;
pub mod shape;
pub mod term;
pub mod transform;

pub use company::Person;
pub use fold::{DiscardResults, Fold};
pub use mutation::{GenericMutate, MakeDefault, MutateEverything, Mutation, UseDefault};
pub use query::{Everything, GenericQuery, Query};
pub use shape::{Shape, Shaped};
pub use term::Term;
pub use transform::{Everywhere, GenericTransform, Transformation};
