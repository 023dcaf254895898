//! Outlines of points, lines, rectangles, triangles and circles on a pixel
//! surface.
//!
//! Every shape is reduced to the ordered sequence of pixels that it sets, and
//! each drawing function states, over the trace of the surface, exactly which
//! pixels it wrote and in which order.
//!
//! - `surface`: the `Displayable` surface, its trace, and what a trace leaves
//!   to be seen; `Recorder`, a surface that keeps every write.
//! - `canvas`: `Canvas`, a surface of fixed size kept in a `raster::Image`.
//! - `rounding`: the one rounding policy, to the nearest pixel with halves
//!   away from zero.
//! - `line`: the walk along a segment, by additions only.
//! - `rectangle`, `triangle`: outlines made of segments.
//! - `circle`: circles, sampled in directions that the caller gives as unit
//!   vectors in fixed point.
//! - `drawable`: `Drawable`, what all shapes have in common; `shape`: any of
//!   them as one type.
//!
//! All coordinates are `i32`, and every pair of points is drawn: no line is
//! too long and no circle too large, and no arithmetic overflows.

pub mod canvas;
pub mod circle;
pub mod color;
pub mod drawable;
pub mod error;
pub mod line;
pub mod point;
mod random;
pub mod rectangle;
pub mod rounding;
pub mod shape;
pub mod surface;
pub mod triangle;

pub use canvas::Canvas;
pub use circle::{Circle, Direction, UNIT};
pub use color::Color;
pub use drawable::Drawable;
pub use error::ShapeError;
pub use line::Line;
pub use point::Point;
pub use rectangle::Rectangle;
pub use shape::Shape;
pub use surface::{Displayable, Mark, Recorder};
pub use triangle::Triangle;
