//! Inference of an alphabet's letter order from a lexicographically sorted
//! word list: adjacent words are compared to extract precedence constraints,
//! and a topological sort of the resulting graph yields one valid order of
//! all distinct letters, or the empty sentinel when the constraints are
//! contradictory or the input carries too little information.
pub mod graph;
pub mod laws;
pub mod lemmas;
pub mod model;
pub mod solution;
