//! In-memory linked containers with verified contracts: a singly ordered
//! sub-list, a multi-level list of sub-lists, a skip list keyed by `usize`,
//! and a sparse matrix kept on row and column chains.
use vstd::prelude::*;

pub mod linked_list;
pub mod multilist;
pub mod skip_list;
pub mod sparse_matrix;

verus! {

} // verus!
