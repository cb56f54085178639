//! Best-first shortest-path search (A*) over an implicitly defined graph,
//! with machine-checked contracts.
//!
//! Nodes are `u64` identifiers and costs are `u64` values. The graph is given
//! by three functions: the outgoing edges of a node, a heuristic estimate of
//! the remaining cost, and the goal test.
//!
//! - [`search`] holds the executable search, [`astar`], and
//!   [`reconstruct_path`].
//! - [`frontier`] is the priority queue that the search pops from.
//! - [`graph`] and [`model`] say what a graph, a path and its cost are, and
//!   what the search computes, step by step.
//! - [`laws`] states what holds of the result; [`bounds`] gives a way to see
//!   that the costs of a graph cannot overflow.
//! - [`invariants`], [`tight`], [`outcome`] and [`potential`] hold the proofs.

pub mod graph;
pub mod frontier;
pub mod model;
pub mod potential;
pub mod invariants;
pub mod outcome;
pub mod tight;
pub mod bounds;
pub mod laws;
pub mod search;

pub use search::astar;
pub use search::reconstruct_path;
