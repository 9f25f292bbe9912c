use vstd::prelude::*;

use crate::aabb::BoundingBox;

verus! {

/// `v`, clamped to the range of `isize`.
pub open spec fn clamped(v: int) -> isize {
    if v > isize::MAX {
        isize::MAX
    } else if v < isize::MIN {
        isize::MIN
    } else {
        v as isize
    }
}

/// `a + b`, saturating at the bounds of `isize`.
fn saturating_add(a: isize, b: isize) -> (r: isize)
    ensures
        r == clamped(a + b),
{
    let v: i128 = a as i128 + b as i128;
    if v > isize::MAX as i128 {
        isize::MAX
    } else if v < isize::MIN as i128 {
        isize::MIN
    } else {
        v as isize
    }
}

/// `a - b`, saturating at the bounds of `isize`.
fn saturating_sub(a: isize, b: isize) -> (r: isize)
    ensures
        r == clamped(a - b),
{
    let v: i128 = a as i128 - b as i128;
    if v > isize::MAX as i128 {
        isize::MAX
    } else if v < isize::MIN as i128 {
        isize::MIN
    } else {
        v as isize
    }
}

/// A point with an optional area of influence, given as half extents along each axis.
/// Without half extents the influence is unbounded; negative half extents influence nothing.
#[derive(Clone, Copy, Debug, Hash, PartialEq, Eq)]
pub struct Node {
    pub x: isize,
    pub y: isize,
    pub half_extents: Option<(isize, isize)>,
}

impl Node {
    /// The box centred on the node with its half extents, edges clamped to `isize`.
    pub open spec fn reach(self, hx: isize, hy: isize) -> BoundingBox {
        BoundingBox {
            left: clamped(self.x - hx),
            top: clamped(self.y - hy),
            right: clamped(self.x + hx),
            bottom: clamped(self.y + hy),
        }
    }

    /// The part of `bound` that the node influences, if any.
    pub open spec fn influence(self, bound: BoundingBox) -> Option<BoundingBox> {
        match self.half_extents {
            Some((hx, hy)) => bound.spec_intersection(self.reach(hx, hy)),
            None => Some(bound),
        }
    }

    /// A node whose influence, if any, is a square.
    pub fn square(x: isize, y: isize, half_extent: Option<isize>) -> (r: Node)
        ensures
            r.x == x,
            r.y == y,
            r.half_extents == match half_extent {
                Some(h) => Some((h, h)),
                None => None::<(isize, isize)>,
            },
    {
        let half_extents = match half_extent {
            Some(h) => Some((h, h)),
            None => None,
        };
        Node { x, y, half_extents }
    }

    pub fn new(x: isize, y: isize, half_extents: Option<(isize, isize)>) -> (r: Node)
        ensures
            r == (Node { x, y, half_extents }),
    {
        Node { x, y, half_extents }
    }

    /// The box that the node influences within `bound`: `None` if they do not meet.
    pub fn intersection(&self, bound: &BoundingBox) -> (r: Option<BoundingBox>)
        ensures
            r == self.influence(*bound),
    {
        match self.half_extents {
            Some((x, y)) => bound.intersection(
                &BoundingBox {
                    left: saturating_sub(self.x, x),
                    top: saturating_sub(self.y, y),
                    right: saturating_add(self.x, x),
                    bottom: saturating_add(self.y, y),
                },
            ),
            None => Some(*bound),
        }
    }
}

} // verus!
