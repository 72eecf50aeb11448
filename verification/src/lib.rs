//! An in-memory nanocube: a data cube that shares structure between its
//! aggregates, takes points one by one, and answers range queries with the
//! combined summary of the points in a box.
//!
//! Every dimension is a binary refinement of a fixed number of bits. A node
//! of a dimension stands for a range of coordinates; its `left` and `right`
//! halve the range, and its `next` leads to everything under the range, seen
//! from the next dimension, or, from the last dimension, to a summary. Nodes
//! live in pools, one for each dimension and one for the summaries, and are
//! shared: the pools count references, and give back slots in batches.
//!
//! - [`cube`] has the algebra of summaries and the interface of a cube.
//! - [`ref_counted_vec`] is the pool.
//! - [`nanocube`] has the types, what a cube answers, and its invariant.
//! - [`refs`] and [`flush`] take and give back references.
//! - [`merge`], [`insert`] and [`merge_cube`] build; [`query`] answers.
//! - [`naivecube`] is the cube that keeps every point, to compare with.
//! - [`laws`] states what holds across operations.
//!
//! A cube is made by [`nanocube::Nanocube::new`], which establishes the
//! invariant that every other operation asks for and keeps.

pub mod cube;
pub mod diagnostics;
pub mod dot;
pub mod flush;
pub mod frame;
pub mod insert;
pub mod laws;
pub mod merge;
pub mod merge_cube;
pub mod naivecube;
pub mod nanocube;
pub mod query;
pub mod ref_counted_vec;
pub mod refs;
pub mod single;
pub mod sparse;
pub mod spine;
pub mod tally;
