use vstd::prelude::*;

pub mod ast;
pub mod compress;
pub mod cache;
pub mod diff;
pub mod graph;
pub mod index;
pub mod languages;
pub mod order;
pub mod paths;
pub mod refs;
pub mod search;
pub mod symbols;
pub mod text;
pub mod tree;
pub mod walk;

verus! {

} // verus!
