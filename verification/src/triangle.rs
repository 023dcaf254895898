//! Triangles.

use vstd::prelude::*;
use crate::circle::Direction;
use crate::color::Color;
use crate::drawable::Drawable;
use crate::error::ShapeError;
use crate::line::{draw_segment, lemma_line_ends, line_pixels};
use crate::point::Point;
use crate::surface::{inked, lemma_inked_add, Displayable};

verus! {

/// The triangle with the three given corners, which need not differ nor lie
/// off one line.
#[derive(Clone, Copy, Debug, PartialEq, Eq, Structural)]
pub struct Triangle {
    /// The first corner.
    pub p1: Point,
    /// The second corner.
    pub p2: Point,
    /// The third corner.
    pub p3: Point,
}

/// The pixels of the outline of the triangle: the edge from `p1` to `p2`,
/// then the one from `p1` to `p3`, then the one from `p2` to `p3`.
pub open spec fn triangle_pixels(p1: Point, p2: Point, p3: Point) -> Seq<(int, int)> {
    line_pixels(p1, p2) + line_pixels(p1, p3) + line_pixels(p2, p3)
}

impl Triangle {
    /// The triangle with corners `p1`, `p2` and `p3`.
    pub fn new(p1: &Point, p2: &Point, p3: &Point) -> (triangle: Triangle)
        ensures
            triangle == (Triangle { p1: *p1, p2: *p2, p3: *p3 }),
    {
        Triangle { p1: *p1, p2: *p2, p3: *p3 }
    }
}

impl Drawable for Triangle {
    open spec fn pixels(&self, sweep: Seq<Direction>) -> Seq<(int, int)> {
        triangle_pixels(self.p1, self.p2, self.p3)
    }

    open spec fn refusal(&self) -> Option<ShapeError> {
        None
    }

    fn draw<S: Displayable>(
        &self,
        surface: &mut S,
        color: Color,
        sweep: &Vec<Direction>,
    ) -> (done: Result<(), ShapeError>) {
        draw_segment(surface, self.p1, self.p2, color);
        draw_segment(surface, self.p1, self.p3, color);
        draw_segment(surface, self.p2, self.p3, color);
        proof {
            let a = line_pixels(self.p1, self.p2);
            let b = line_pixels(self.p1, self.p3);
            let c = line_pixels(self.p2, self.p3);
            lemma_inked_add(a, b, color);
            lemma_inked_add(a + b, c, color);
            assert(surface.trace() =~= old(surface).trace() + inked(a + b + c, color));
        }
        Ok(())
    }
}

/// The outline of a triangle is its three edges one after the other, and
/// each edge starts and ends exactly on its two corners.
pub proof fn lemma_triangle_edges(p1: Point, p2: Point, p3: Point)
    ensures
        triangle_pixels(p1, p2, p3) == line_pixels(p1, p2) + line_pixels(p1, p3) + line_pixels(
            p2,
            p3,
        ),
        line_pixels(p1, p2).first() == (p1.x as int, p1.y as int),
        line_pixels(p1, p2).last() == (p2.x as int, p2.y as int),
        line_pixels(p1, p3).first() == (p1.x as int, p1.y as int),
        line_pixels(p1, p3).last() == (p3.x as int, p3.y as int),
        line_pixels(p2, p3).first() == (p2.x as int, p2.y as int),
        line_pixels(p2, p3).last() == (p3.x as int, p3.y as int),
{
    lemma_line_ends(p1, p2);
    lemma_line_ends(p1, p3);
    lemma_line_ends(p2, p3);
}

} // verus!
