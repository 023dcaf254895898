//! Any of the shapes, as one type.

use vstd::prelude::*;
use crate::circle::{Circle, Direction};
use crate::color::Color;
use crate::drawable::Drawable;
use crate::error::ShapeError;
use crate::line::Line;
use crate::point::Point;
use crate::rectangle::Rectangle;
use crate::surface::Displayable;
use crate::triangle::Triangle;

verus! {

/// A shape of any kind, so that shapes of different kinds can be held
/// together and drawn alike.
#[derive(Clone, Copy, Debug, PartialEq, Eq, Structural)]
pub enum Shape {
    /// A single pixel.
    Point(Point),
    /// A segment.
    Line(Line),
    /// The outline of a rectangle.
    Rectangle(Rectangle),
    /// The outline of a triangle.
    Triangle(Triangle),
    /// The outline of a circle.
    Circle(Circle),
}

impl Drawable for Shape {
    open spec fn pixels(&self, sweep: Seq<Direction>) -> Seq<(int, int)> {
        match *self {
            Shape::Point(point) => point.pixels(sweep),
            Shape::Line(line) => line.pixels(sweep),
            Shape::Rectangle(rectangle) => rectangle.pixels(sweep),
            Shape::Triangle(triangle) => triangle.pixels(sweep),
            Shape::Circle(circle) => circle.pixels(sweep),
        }
    }

    open spec fn refusal(&self) -> Option<ShapeError> {
        match *self {
            Shape::Point(point) => point.refusal(),
            Shape::Line(line) => line.refusal(),
            Shape::Rectangle(rectangle) => rectangle.refusal(),
            Shape::Triangle(triangle) => triangle.refusal(),
            Shape::Circle(circle) => circle.refusal(),
        }
    }

    fn draw<S: Displayable>(
        &self,
        surface: &mut S,
        color: Color,
        sweep: &Vec<Direction>,
    ) -> (done: Result<(), ShapeError>) {
        match self {
            Shape::Point(point) => point.draw(surface, color, sweep),
            Shape::Line(line) => line.draw(surface, color, sweep),
            Shape::Rectangle(rectangle) => rectangle.draw(surface, color, sweep),
            Shape::Triangle(triangle) => triangle.draw(surface, color, sweep),
            Shape::Circle(circle) => circle.draw(surface, color, sweep),
        }
    }
}

} // verus!
