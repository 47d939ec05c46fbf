//! A cooperative, poll-driven task execution engine with two demonstrations
//! built on it: a zero-copy recursive-descent JSON parser whose cursor state
//! is threaded explicitly through every parsing step, and an event-driven
//! gameplay scheduler where suspended tasks register interest in game events
//! and resume when those events fire.  A few self-contained data structures
//! (union-find, adjacency graphs, random DAG generation, field views) round
//! out the crate.

pub mod cursor;
pub mod disjoint_set;
pub mod engine;
pub mod json;
pub mod lens;
pub mod rand_graph;
mod seq_facts;
pub mod token;
pub mod toposort;
