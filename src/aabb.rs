use vstd::prelude::*;

use crate::sums::sum_of;

verus! {

/// An axis-aligned rectangle covering the half-open area `[left, right) x [top, bottom)`.
#[derive(Clone, Copy, Debug, PartialEq, Eq, Structural, PartialOrd, Ord)]
pub struct BoundingBox {
    pub left: isize,
    pub right: isize,
    pub top: isize,
    pub bottom: isize,
}

pub open spec fn max_of(a: isize, b: isize) -> isize {
    if a >= b {
        a
    } else {
        b
    }
}

pub open spec fn min_of(a: isize, b: isize) -> isize {
    if a <= b {
        a
    } else {
        b
    }
}

impl BoundingBox {
    /// Edges are ordered: `left <= right` and `top <= bottom`.
    pub open spec fn wf(self) -> bool {
        self.left <= self.right && self.top <= self.bottom
    }

    pub open spec fn width(self) -> int {
        self.right - self.left
    }

    pub open spec fn height(self) -> int {
        self.bottom - self.top
    }

    pub open spec fn spec_area(self) -> int {
        self.width() * self.height()
    }

    /// Boundary-inclusive enclosure of `other`.
    pub open spec fn spec_contains(self, other: BoundingBox) -> bool {
        self.left <= other.left && self.top <= other.top && self.right >= other.right
            && self.bottom >= other.bottom
    }

    /// The point `(x, y)` lies in the half-open area of the box.
    pub open spec fn has_point(self, x: int, y: int) -> bool {
        self.left <= x < self.right && self.top <= y < self.bottom
    }

    /// The open intervals `(left, right)` and `(top, bottom)` of the two boxes overlap.
    pub open spec fn spec_intersects(self, other: BoundingBox) -> bool {
        max_of(self.left, other.left) < min_of(self.right, other.right) && max_of(
            self.top,
            other.top,
        ) < min_of(self.bottom, other.bottom)
    }

    pub open spec fn spec_intersection(self, other: BoundingBox) -> Option<BoundingBox> {
        if self.spec_intersects(other) {
            Some(
                BoundingBox {
                    left: max_of(self.left, other.left),
                    right: min_of(self.right, other.right),
                    top: max_of(self.top, other.top),
                    bottom: min_of(self.bottom, other.bottom),
                },
            )
        } else {
            None
        }
    }

    /// The strip of `self` above `other`, if any.
    pub open spec fn top_strip(self, other: BoundingBox) -> Seq<BoundingBox> {
        if self.top < other.top {
            seq![BoundingBox { bottom: other.top, ..self }]
        } else {
            Seq::empty()
        }
    }

    /// `self` with the part above `other` cut away.
    pub open spec fn below_top(self, other: BoundingBox) -> BoundingBox {
        BoundingBox { top: max_of(self.top, other.top), ..self }
    }

    pub open spec fn bottom_strip(self, other: BoundingBox) -> Seq<BoundingBox> {
        if self.bottom > other.bottom {
            seq![BoundingBox { top: other.bottom, ..self }]
        } else {
            Seq::empty()
        }
    }

    /// `self` restricted to the rows that `other` spans.
    pub open spec fn band(self, other: BoundingBox) -> BoundingBox {
        let b = self.below_top(other);
        BoundingBox { bottom: min_of(b.bottom, other.bottom), ..b }
    }

    pub open spec fn left_strip(self, other: BoundingBox) -> Seq<BoundingBox> {
        if self.left < other.left {
            seq![BoundingBox { right: other.left, ..self }]
        } else {
            Seq::empty()
        }
    }

    pub open spec fn right_of_left(self, other: BoundingBox) -> BoundingBox {
        BoundingBox { left: max_of(self.left, other.left), ..self }
    }

    pub open spec fn right_strip(self, other: BoundingBox) -> Seq<BoundingBox> {
        if self.right > other.right {
            seq![BoundingBox { left: other.right, ..self }]
        } else {
            Seq::empty()
        }
    }

    /// The pieces of `self` outside `other`, chopped in a fixed order: the strip above
    /// `other`, the strip below it, then, within the remaining band, the strip to its left
    /// and the strip to its right. Empty when the two boxes do not intersect.
    pub open spec fn spec_difference(self, other: BoundingBox) -> Seq<BoundingBox> {
        if !self.spec_intersects(other) {
            Seq::empty()
        } else {
            let b1 = self.below_top(other);
            let b2 = self.band(other);
            let b3 = b2.right_of_left(other);
            self.top_strip(other) + b1.bottom_strip(other) + b2.left_strip(other)
                + b3.right_strip(other)
        }
    }
}

fn larger(a: isize, b: isize) -> (r: isize)
    ensures
        r == max_of(a, b),
{
    if a >= b {
        a
    } else {
        b
    }
}

fn smaller(a: isize, b: isize) -> (r: isize)
    ensures
        r == min_of(a, b),
{
    if a <= b {
        a
    } else {
        b
    }
}

impl BoundingBox {
    /// The box with top-left corner `(x, y)` and the given size.
    pub fn new(x: isize, y: isize, width: isize, height: isize) -> (r: BoundingBox)
        requires
            width >= 0,
            height >= 0,
            x + width <= isize::MAX,
            y + height <= isize::MAX,
        ensures
            r == (BoundingBox { left: x, right: (x + width) as isize, top: y, bottom: (y + height) as isize }),
            r.wf(),
    {
        BoundingBox { left: x, right: x + width, top: y, bottom: y + height }
    }

    pub fn area(&self) -> (r: isize)
        requires
            isize::MIN <= self.width() <= isize::MAX,
            isize::MIN <= self.height() <= isize::MAX,
            isize::MIN <= self.spec_area() <= isize::MAX,
        ensures
            r == self.spec_area(),
    {
        (self.right - self.left) * (self.bottom - self.top)
    }

    pub fn contains(&self, other: &BoundingBox) -> (r: bool)
        ensures
            r == self.spec_contains(*other),
    {
        self.left <= other.left && self.top <= other.top && self.right >= other.right
            && self.bottom >= other.bottom
    }

    pub fn contains_point(&self, x: isize, y: isize) -> (r: bool)
        ensures
            r == self.has_point(x as int, y as int),
    {
        x >= self.left && x < self.right && y >= self.top && y < self.bottom
    }

    pub fn intersects(&self, other: &BoundingBox) -> (r: bool)
        ensures
            r == self.spec_intersects(*other),
    {
        let x_intersect = larger(self.left, other.left) < smaller(self.right, other.right);
        let y_intersect = larger(self.top, other.top) < smaller(self.bottom, other.bottom);

        x_intersect && y_intersect
    }

    pub fn intersection(&self, other: &BoundingBox) -> (r: Option<BoundingBox>)
        ensures
            r == self.spec_intersection(*other),
    {
        if self.intersects(other) {
            let x = larger(self.left, other.left);
            let y = larger(self.top, other.top);
            let x2 = smaller(self.right, other.right);
            let y2 = smaller(self.bottom, other.bottom);
            Some(BoundingBox { left: x, top: y, right: x2, bottom: y2 })
        } else {
            None
        }
    }

    /// Subtracts `rhs` from `self`: see `spec_difference` for the chopping order.
    pub fn difference(&self, rhs: &BoundingBox) -> (r: Vec<BoundingBox>)
        ensures
            r@ == self.spec_difference(*rhs),
    {
        let mut regions: Vec<BoundingBox> = Vec::new();

        // boxes that do not intersect leave nothing to subtract
        if !self.intersects(rhs) {
            return regions;
        }

        let mut base = *self;

        if base.top < rhs.top {
            regions.push(BoundingBox { bottom: rhs.top, ..base });
            base.top = rhs.top;
        }
        assert(regions@ == self.top_strip(*rhs));
        assert(base == self.below_top(*rhs));

        if base.bottom > rhs.bottom {
            regions.push(BoundingBox { top: rhs.bottom, ..base });
            base.bottom = rhs.bottom;
        }
        assert(regions@ == self.top_strip(*rhs) + self.below_top(*rhs).bottom_strip(*rhs));
        assert(base == self.band(*rhs));

        if base.left < rhs.left {
            regions.push(BoundingBox { right: rhs.left, ..base });
            base.left = rhs.left;
        }
        let ghost b2 = self.band(*rhs);
        assert(regions@ == self.top_strip(*rhs) + self.below_top(*rhs).bottom_strip(*rhs)
            + b2.left_strip(*rhs));
        assert(base == b2.right_of_left(*rhs));

        if base.right > rhs.right {
            regions.push(BoundingBox { left: rhs.right, ..base });
            base.right = rhs.right;
        }
        regions
    }
}

/// The area of a box, as a function to sum with.
pub open spec fn area_of() -> spec_fn(BoundingBox) -> int {
    |b: BoundingBox| b.spec_area()
}

/// The summed area of a sequence of boxes.
pub open spec fn total_area(boxes: Seq<BoundingBox>) -> int {
    sum_of(boxes, area_of())
}

/// Intersection does not depend on the order of its operands.
pub proof fn intersection_commutative(a: BoundingBox, b: BoundingBox)
    ensures
        a.spec_intersection(b) == b.spec_intersection(a),
        a.spec_intersects(b) == b.spec_intersects(a),
{
}

/// Every box contains itself.
pub proof fn contains_reflexive(a: BoundingBox)
    ensures
        a.spec_contains(a),
{
}

/// The intersection of two boxes is a well-formed box of positive area lying in both,
/// and holds exactly the points that both hold.
pub proof fn lemma_intersection(a: BoundingBox, b: BoundingBox)
    requires
        a.spec_intersects(b),
    ensures
        a.spec_intersection(b).unwrap().wf(),
        a.spec_intersection(b).unwrap().spec_area() >= 1,
        a.wf() ==> a.spec_contains(a.spec_intersection(b).unwrap()),
        b.wf() ==> b.spec_contains(a.spec_intersection(b).unwrap()),
        forall|x: int, y: int|
            #[trigger] a.spec_intersection(b).unwrap().has_point(x, y) <==> (a.has_point(x, y)
                && b.has_point(x, y)),
{
    let i = a.spec_intersection(b).unwrap();
    assert(i.width() >= 1 && i.height() >= 1);
    assert(i.spec_area() >= 1) by (nonlinear_arith)
        requires
            i.spec_area() == i.width() * i.height(),
            i.width() >= 1,
            i.height() >= 1,
    ;
}

/// The pieces of a difference: none when the boxes do not intersect; otherwise at most
/// four pairwise disjoint, well-formed boxes of positive area inside `a` and outside `b`,
/// covering every point of `a` that `b` misses, whose areas add up with that of the
/// intersection to the area of `a`.
pub proof fn lemma_difference(a: BoundingBox, b: BoundingBox)
    requires
        a.wf(),
        b.wf(),
    ensures
        !a.spec_intersects(b) ==> a.spec_difference(b).len() == 0,
        a.spec_difference(b).len() <= 4,
        forall|k: int|
            0 <= k < a.spec_difference(b).len() ==> {
                let p = #[trigger] a.spec_difference(b)[k];
                &&& p.wf()
                &&& a.spec_contains(p)
                &&& !p.spec_intersects(b)
                &&& p.spec_area() >= 1
            },
        forall|k1: int, k2: int|
            0 <= k1 < a.spec_difference(b).len() && 0 <= k2 < a.spec_difference(b).len() && k1
                != k2 ==> !(#[trigger] a.spec_difference(b)[k1]).spec_intersects(
                #[trigger] a.spec_difference(b)[k2],
            ),
        a.spec_intersects(b) ==> a.spec_area() == a.spec_intersection(b).unwrap().spec_area()
            + total_area(a.spec_difference(b)),
        a.spec_intersects(b) ==> forall|x: int, y: int|
            a.has_point(x, y) && !b.has_point(x, y) ==> exists|k: int|
                0 <= k < a.spec_difference(b).len() && (#[trigger] a.spec_difference(
                    b,
                )[k]).has_point(x, y),
{
    let d = a.spec_difference(b);
    if a.spec_intersects(b) {
        let b1 = a.below_top(b);
        let b2 = a.band(b);
        let b3 = b2.right_of_left(b);
        let t = a.top_strip(b);
        let bo = b1.bottom_strip(b);
        let l = b2.left_strip(b);
        let r = b3.right_strip(b);
        let i = a.spec_intersection(b).unwrap();
        assert(b3.right_of_left(b) == b3);
        assert(i == (BoundingBox { right: min_of(b3.right, b.right), ..b3 }));
        // positive areas
        assert forall|k: int| 0 <= k < d.len() implies (#[trigger] d[k]).spec_area() >= 1 by {
            let p = d[k];
            assert(p.width() >= 1 && p.height() >= 1);
            assert(p.spec_area() >= 1) by (nonlinear_arith)
                requires
                    p.spec_area() == p.width() * p.height(),
                    p.width() >= 1,
                    p.height() >= 1,
            ;
        }
        // areas: each cut splits a box into two parts whose areas add up
        assert(a.spec_area() == total_area(t) + b1.spec_area()) by {
            lemma_split_rows(a, max_of(a.top, b.top));
            reveal_with_fuel(sum_of, 2);
        }
        assert(b1.spec_area() == total_area(bo) + b2.spec_area()) by {
            lemma_split_rows(b1, min_of(b1.bottom, b.bottom));
            reveal_with_fuel(sum_of, 2);
        }
        assert(b2.spec_area() == total_area(l) + b3.spec_area()) by {
            lemma_split_cols(b2, max_of(b2.left, b.left));
            reveal_with_fuel(sum_of, 2);
        }
        assert(b3.spec_area() == total_area(r) + i.spec_area()) by {
            lemma_split_cols(b3, min_of(b3.right, b.right));
            reveal_with_fuel(sum_of, 2);
        }
        lemma_total_area_concat(t, bo);
        lemma_total_area_concat(t + bo, l);
        lemma_total_area_concat(t + bo + l, r);
        // covering
        assert forall|x: int, y: int| a.has_point(x, y) && !b.has_point(x, y) implies exists|
            k: int,
        | 0 <= k < d.len() && (#[trigger] d[k]).has_point(x, y) by {
            if y < b.top {
                assert(d[0].has_point(x, y));
            } else if y >= b.bottom {
                let k = t.len() as int;
                assert(d[k].has_point(x, y));
            } else if x < b.left {
                let k = (t.len() + bo.len()) as int;
                assert(d[k].has_point(x, y));
            } else {
                let k = (t.len() + bo.len() + l.len()) as int;
                assert(d[k].has_point(x, y));
            }
        }
    }
}

/// Cutting a box at row `y` splits its area.
proof fn lemma_split_rows(a: BoundingBox, y: isize)
    requires
        a.top <= y <= a.bottom,
    ensures
        a.spec_area() == (BoundingBox { bottom: y, ..a }).spec_area() + (BoundingBox {
            top: y,
            ..a
        }).spec_area(),
{
    assert(a.width() * (a.bottom - a.top) == a.width() * (y - a.top) + a.width() * (a.bottom
        - y)) by (nonlinear_arith);
}

/// Cutting a box at column `x` splits its area.
proof fn lemma_split_cols(a: BoundingBox, x: isize)
    requires
        a.left <= x <= a.right,
    ensures
        a.spec_area() == (BoundingBox { right: x, ..a }).spec_area() + (BoundingBox {
            left: x,
            ..a
        }).spec_area(),
{
    assert((a.right - a.left) * a.height() == (x - a.left) * a.height() + (a.right - x)
        * a.height()) by (nonlinear_arith);
}

pub proof fn lemma_total_area_concat(s: Seq<BoundingBox>, t: Seq<BoundingBox>)
    ensures
        total_area(s + t) == total_area(s) + total_area(t),
{
    crate::sums::lemma_sum_concat(s, t, area_of());
}

} // verus!
