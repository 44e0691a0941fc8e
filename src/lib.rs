// An octree over weighted points of the integer lattice, with the total mass and
// mass-weighted sum of positions of every subtree: the structure that a Barnes-Hut
// force evaluation walks.
use vstd::prelude::*;

pub mod geometry;
pub mod laws;
pub mod model;
pub mod octtree;

verus! {

} // verus!
