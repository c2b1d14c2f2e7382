//! Verified puzzle solvers: a grid-traversal simulator with loop detection,
//! an ordering-constraint resolver with fixpoint repair, a word-search
//! scanner, a report safety check, a corrupted-memory instruction scanner,
//! and paired-list distance scoring.
//!
//! Each solver states its behavior as a contract over a mathematical model
//! of its input and is verified against it.

use vstd::prelude::*;

pub mod distances;
pub mod memory;
pub mod ordering;
pub mod parse;
pub mod patrol;
pub mod reports;
pub mod word_search;

verus! {

} // verus!
