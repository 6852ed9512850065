//! Per-element style traversal over a document tree.
//!
//! `tree` holds the document tree, `traversal` the decisions made at each
//! node, `sequential` the breadth-first driver with its guarantees, `stats`
//! the per-worker counters and how they merge, and `shorthand` the parsing
//! and writing of a few shorthand properties.
use vstd::prelude::*;

pub mod sequential;
pub mod shorthand;
pub mod stats;
pub mod traversal;
pub mod tree;

verus! {

} // verus!
