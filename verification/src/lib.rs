use vstd::prelude::*;

pub mod candies;
pub mod dungeons;
pub mod euclid;
pub mod fish;
pub mod insects;
pub mod mushrooms;
pub mod sort;

verus! {
}
