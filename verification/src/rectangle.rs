//! Rectangles with sides along the axes.

use vstd::prelude::*;
use crate::circle::Direction;
use crate::color::Color;
use crate::drawable::Drawable;
use crate::error::ShapeError;
use crate::line::{draw_segment, in_box, lemma_line_ends, lemma_line_within_box, line_pixels};
use crate::point::Point;
use crate::surface::{inked, lemma_inked_add, Displayable};

verus! {

/// The rectangle with sides along the axes of which `p1` and `p2` are
/// opposite corners.
#[derive(Clone, Copy, Debug, PartialEq, Eq, Structural)]
pub struct Rectangle {
    /// One corner.
    pub p1: Point,
    /// The corner opposite to `p1`.
    pub p2: Point,
}

/// The pixels of the outline of the rectangle with opposite corners `p1` and
/// `p2`: its four edges, walked as one closed loop from `p1` by way of
/// `(p1.x, p2.y)`, `p2` and `(p2.x, p1.y)`. Each corner ends one edge and
/// starts the next, so it occurs twice.
pub open spec fn rectangle_pixels(p1: Point, p2: Point) -> Seq<(int, int)> {
    let p3 = Point { x: p1.x, y: p2.y };
    let p4 = Point { x: p2.x, y: p1.y };
    line_pixels(p1, p3) + line_pixels(p3, p2) + line_pixels(p2, p4) + line_pixels(p4, p1)
}

impl Rectangle {
    /// The rectangle with opposite corners `p1` and `p2`.
    pub fn new(p1: &Point, p2: &Point) -> (rectangle: Rectangle)
        ensures
            rectangle == (Rectangle { p1: *p1, p2: *p2 }),
    {
        Rectangle { p1: *p1, p2: *p2 }
    }
}

impl Drawable for Rectangle {
    open spec fn pixels(&self, sweep: Seq<Direction>) -> Seq<(int, int)> {
        rectangle_pixels(self.p1, self.p2)
    }

    open spec fn refusal(&self) -> Option<ShapeError> {
        None
    }

    fn draw<S: Displayable>(
        &self,
        surface: &mut S,
        color: Color,
        sweep: &Vec<Direction>,
    ) -> (done: Result<(), ShapeError>) {
        let p3 = Point::new(self.p1.x, self.p2.y);
        let p4 = Point::new(self.p2.x, self.p1.y);
        draw_segment(surface, self.p1, p3, color);
        draw_segment(surface, p3, self.p2, color);
        draw_segment(surface, self.p2, p4, color);
        draw_segment(surface, p4, self.p1, color);
        proof {
            let a = line_pixels(self.p1, p3);
            let b = line_pixels(p3, self.p2);
            let c = line_pixels(self.p2, p4);
            let d = line_pixels(p4, self.p1);
            lemma_inked_add(a, b, color);
            lemma_inked_add(a + b, c, color);
            lemma_inked_add(a + b + c, d, color);
            assert(surface.trace() =~= old(surface).trace() + inked(a + b + c + d, color));
        }
        Ok(())
    }
}

/// The outline of a rectangle fills its box exactly: no pixel of it lies
/// outside the columns and rows between the two corners, and the four corners
/// of the box are pixels of it.
pub proof fn lemma_rectangle_box(p1: Point, p2: Point)
    ensures
        forall|k: int|
            0 <= k < rectangle_pixels(p1, p2).len() ==> in_box(
                #[trigger] rectangle_pixels(p1, p2)[k],
                p1,
                p2,
            ),
        rectangle_pixels(p1, p2).contains((p1.x as int, p1.y as int)),
        rectangle_pixels(p1, p2).contains((p1.x as int, p2.y as int)),
        rectangle_pixels(p1, p2).contains((p2.x as int, p2.y as int)),
        rectangle_pixels(p1, p2).contains((p2.x as int, p1.y as int)),
{
    let p3 = Point { x: p1.x, y: p2.y };
    let p4 = Point { x: p2.x, y: p1.y };
    let a = line_pixels(p1, p3);
    let b = line_pixels(p3, p2);
    let c = line_pixels(p2, p4);
    let d = line_pixels(p4, p1);
    let all = rectangle_pixels(p1, p2);
    lemma_line_within_box(p1, p3);
    lemma_line_within_box(p3, p2);
    lemma_line_within_box(p2, p4);
    lemma_line_within_box(p4, p1);
    lemma_line_ends(p1, p3);
    lemma_line_ends(p3, p2);
    lemma_line_ends(p2, p4);
    lemma_line_ends(p4, p1);
    assert forall|k: int| 0 <= k < all.len() implies in_box(#[trigger] all[k], p1, p2) by {
        if k < a.len() {
            assert(all[k] == a[k]);
            assert(in_box(a[k], p1, p3));
        } else if k < a.len() + b.len() {
            assert(all[k] == b[k - a.len()]);
            assert(in_box(b[k - a.len()], p3, p2));
        } else if k < a.len() + b.len() + c.len() {
            assert(all[k] == c[k - a.len() - b.len()]);
            assert(in_box(c[k - a.len() - b.len()], p2, p4));
        } else {
            assert(all[k] == d[k - a.len() - b.len() - c.len()]);
            assert(in_box(d[k - a.len() - b.len() - c.len()], p4, p1));
        }
    }
    assert(all[0] == a[0]);
    assert(all[a.len() as int] == b[0]);
    assert(all[(a.len() + b.len()) as int] == c[0]);
    assert(all[(a.len() + b.len() + c.len()) as int] == d[0]);
}

} // verus!
