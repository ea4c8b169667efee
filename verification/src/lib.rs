//! Rebuild planning for package maintainers: which packages must be rebuilt
//! after a set of seed packages changes, and in which order to report them.
//!
//! A run goes through the modules in this order:
//!
//! - `corpus`: the packages of the configured repositories as plain values,
//!   and the resolution of seed names against them;
//! - `index`: the reverse-dependency index, built in one scan of the corpus;
//! - `graph`: the graph of affected packages, one node per package name and
//!   at most one edge per pair, kept in a `petgraph` graph;
//! - `expand`: the worklist that fills the graph from the seeds;
//! - `traversal` and `report`: one breadth-first line per seed;
//! - `plan`: the whole run, from the corpus and the seeds to the report and
//!   the DOT text of the graph.
//!
//! `laws` states what holds of every run, `order` proves in which order a
//! line names the dependents of its seed, `store` is the boundary to
//! `petgraph`, and `error` holds the errors of a run.

pub mod corpus;
pub mod error;
pub mod expand;
pub mod graph;
pub mod index;
pub mod laws;
pub mod order;
pub mod plan;
pub mod report;
pub mod store;
pub mod traversal;
