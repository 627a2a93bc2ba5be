//! An interactive file and directory launcher core: ranks filesystem entries
//! against a typed query by merging exact, directory, prefix and semantic
//! matches, and schedules background embedding work over a priority queue.
pub mod custom_tree;
pub mod embedding;
pub mod rank;
pub mod text;
pub mod ui;

use vstd::prelude::*;

verus! {

} // verus!
