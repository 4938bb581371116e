//! Inference core of a first-order probabilistic reasoning system.
//!
//! Knowledge is a set of typed predicates over entities, quantified
//! implications between predicate groups, and a scoring model over those
//! implications.  Given a target ground proposition and a table of observed
//! probabilities, the engine builds a bipartite proposition graph backward
//! from the target and runs Pearl-style belief propagation over it, with
//! every probability held as an exact rational number.

pub mod errors;
pub mod factors;
pub mod graph;
pub mod inference;
pub mod interface;
pub mod lambda;
pub mod laws;
pub mod model;
pub mod objects;
pub mod pi;
pub mod rational;
pub mod repl;
pub mod table;
pub mod text;

pub use rational::Rational;
