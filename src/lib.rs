//! Reconstruction of a remote accessibility hierarchy as an in-memory tree.
//!
//! `builder` holds the scan state machine and the fold that reassembles the
//! tree without recursion; `scan` models the explicit-stack scan and proves
//! that scanning then folding gives the tree back; `ranker` flattens a tree
//! and ranks its nodes by stacking order; `render` lays the tree out as lines
//! of connectors; `diagnostic` describes a node with too many children.
use vstd::prelude::*;

pub mod node;
pub mod builder;
pub mod scan;
pub mod ranker;
pub mod render;
pub mod diagnostic;

verus! {

} // verus!
