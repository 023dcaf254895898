//! Why a shape is refused.

use vstd::prelude::*;

verus! {

/// The reason for which a shape cannot be drawn.
#[derive(Clone, Copy, Debug, PartialEq, Eq, Structural)]
pub enum ShapeError {
    /// The radius of the circle is negative.
    NegativeRadius,
}

impl ShapeError {
    /// The reason in words.
    pub fn message(&self) -> (text: &'static str)
        ensures
            text@ == "the radius of a circle cannot be negative"@,
    {
        match self {
            ShapeError::NegativeRadius => "the radius of a circle cannot be negative",
        }
    }
}

} // verus!
