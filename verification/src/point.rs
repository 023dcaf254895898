//! Points of the integer plane.

use vstd::prelude::*;
use crate::random::random_below;
use crate::circle::Direction;
use crate::color::Color;
use crate::drawable::Drawable;
use crate::error::ShapeError;
use crate::surface::{inked, Displayable};

verus! {

/// A pixel position: column `x` and row `y`.
#[derive(Clone, Copy, Debug, PartialEq, Eq, Structural)]
pub struct Point {
    /// Column.
    pub x: i32,
    /// Row.
    pub y: i32,
}

impl Point {
    /// The point `(x, y)`.
    pub fn new(x: i32, y: i32) -> (p: Point)
        ensures
            p == (Point { x, y }),
    {
        Point { x, y }
    }

    /// A point drawn at random from the `width` by `height` pixels whose
    /// corner is the origin.
    pub fn random(width: i32, height: i32) -> (p: Point)
        requires
            width > 0,
            height > 0,
        ensures
            0 <= p.x < width,
            0 <= p.y < height,
    {
        let x: i32 = random_below(width);
        let y: i32 = random_below(height);
        Point::new(x, y)
    }
}

impl Drawable for Point {
    open spec fn pixels(&self, sweep: Seq<Direction>) -> Seq<(int, int)> {
        seq![(self.x as int, self.y as int)]
    }

    open spec fn refusal(&self) -> Option<ShapeError> {
        None
    }

    fn draw<S: Displayable>(
        &self,
        surface: &mut S,
        color: Color,
        sweep: &Vec<Direction>,
    ) -> (done: Result<(), ShapeError>) {
        surface.display(self.x, self.y, color);
        assert(surface.trace() =~= old(surface).trace() + inked(
            seq![(self.x as int, self.y as int)],
            color,
        ));
        Ok(())
    }
}

} // verus!
