//! Overlays the areas of influence of a list of nodes on a rectangular arena: the arena is
//! split into disjoint axis-aligned boxes, each labelled by the nodes that influence it.

use vstd::prelude::*;

pub mod aabb;
pub mod node;
pub mod rc_vec;
pub mod regions;
pub mod stack;
mod steps;
pub mod sums;

pub use aabb::BoundingBox;
pub use node::Node;
pub use rc_vec::RcVec;
pub use regions::{get_regions, get_regions_with_capacity, Cell, PartitionError, PENDING_CAPACITY};
pub use stack::{Stack, StackIntoIter};

verus! {

} // verus!
