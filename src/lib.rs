//! Change detection for watched files by polling an in-memory mirror of the
//! watched paths.
use vstd::prelude::*;

pub mod metadata;
pub mod node;
pub mod treemap;
pub mod modes;
pub mod config;
pub mod common_path;
pub mod pathmap;
pub mod order;

verus! {

} // verus!
