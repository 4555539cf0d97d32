//! An interactive explorer core for structured documents: an ordered tree of
//! typed values, addressed by structural paths, searched with a small boolean
//! pattern language and a fuzzy subsequence scorer.

pub mod action;
pub mod pointer;
pub mod render;
pub mod scoring;
pub mod search;
pub mod state;
pub mod string_map;
pub mod text;
pub mod value;

use vstd::prelude::*;

verus! {

} // verus!
