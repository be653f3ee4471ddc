//! Counting mushrooms: find how many of `n` mushrooms have the type of mushroom 0,
//! using a machine that, for a sequence of distinct mushrooms, reports how many
//! neighbours in it differ in type.
use vstd::prelude::*;

pub mod bits;
pub mod plan;
pub mod cost;
pub mod query;
pub mod solver;
pub mod types;

verus! {
} // verus!
