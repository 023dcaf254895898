//! What every shape can do: draw itself.

use vstd::prelude::*;
use crate::random::random_below;
use crate::circle::Direction;
use crate::color::Color;
use crate::error::ShapeError;
use crate::surface::{inked, lemma_inked_twice, painted, same_pixels, Displayable};

verus! {

/// What `draw` answers for a shape with the given reason to be refused.
pub open spec fn answer(refusal: Option<ShapeError>) -> Result<(), ShapeError> {
    match refusal {
        Some(reason) => Err(reason),
        None => Ok(()),
    }
}

/// A shape that can be drawn onto a surface.
pub trait Drawable {
    /// The pixels of the shape, in the order in which `draw` writes them.
    /// `sweep` holds the directions in which a round shape is sampled; a
    /// shape made of straight edges does not depend on it.
    spec fn pixels(&self, sweep: Seq<Direction>) -> Seq<(int, int)>;

    /// Why the shape cannot be drawn, or `None` where it can.
    spec fn refusal(&self) -> Option<ShapeError>;

    /// Writes the pixels of the shape onto `surface`, each in `color`, and
    /// nothing else. A shape that is refused is not written at all.
    fn draw<S: Displayable>(
        &self,
        surface: &mut S,
        color: Color,
        sweep: &Vec<Direction>,
    ) -> (done: Result<(), ShapeError>)
        ensures
            done == answer(self.refusal()),
            self.refusal() is None ==> final(surface).trace() == old(surface).trace() + inked(
                self.pixels(sweep@),
                color,
            ),
            self.refusal() is Some ==> final(surface).trace() == old(surface).trace(),
            same_pixels(*final(surface), *old(surface)),
    ;

    /// A colour drawn at random, fully opaque.
    fn color() -> (c: Color)
        ensures
            c.a == 255,
    {
        let r: i32 = random_below(256);
        let g: i32 = random_below(256);
        let b: i32 = random_below(256);
        Color::opaque(r as u8, g as u8, b as u8)
    }
}

/// Drawing is idempotent: a surface on which a shape was drawn twice in one
/// colour shows what it shows after the first time.
pub proof fn lemma_drawn_twice<D: Drawable>(
    shape: D,
    before: Seq<(int, int, Color)>,
    color: Color,
    sweep: Seq<Direction>,
)
    ensures
        painted(before + inked(shape.pixels(sweep), color) + inked(shape.pixels(sweep), color))
            == painted(before + inked(shape.pixels(sweep), color)),
{
    lemma_inked_twice(before, shape.pixels(sweep), color);
}

} // verus!
