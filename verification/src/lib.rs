//! Fact store and control-flow-graph simplification for a points-in-time
//! borrow analysis.
//!
//! The store, [`AllFacts`], holds seven relations over atoms: regions, loans
//! and points. `AllFacts::simplify_cfg` finds the chains of isolated edges of
//! the control-flow graph and, along each chain, merges the two ends of
//! every edge that no fact tells apart.
//!
//! - `atom`: atoms and their comparison by index;
//! - `facts`: the store, its queries, the collapse of an edge, the walk along
//!   a chain and the simplification;
//! - `chains`: the detection of isolated edges and of their chains;
//! - `model`: the store as sequences of tuples, and what each operation
//!   makes of them;
//! - `graph`: isolated edges and chains as statements about the edges;
//! - `laws`: what holds of every simplification;
//! - `order`: that the order in which the chains are walked is immaterial;
//! - `rewrite`, `walk`, `seqs`: the proofs that the laws rest on;
//! - `tab_delim`: the reading of tab-separated fact rows.

pub mod atom;
pub mod chains;
pub mod facts;
pub mod graph;
pub mod laws;
pub mod model;
pub mod order;
pub mod rewrite;
pub mod seqs;
pub mod tab_delim;
pub mod walk;

pub use atom::{Atom, Loan, Point, Region};
pub use facts::AllFacts;
