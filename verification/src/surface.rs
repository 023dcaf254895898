//! Surfaces: what a shape is drawn onto.

use vstd::prelude::*;
use crate::color::Color;

verus! {

/// A surface on which single pixels can be set.
///
/// A surface is described by its trace: every write it has received so far,
/// oldest first, as `(x, y, colour)`, and by the pixels it has. What a surface
/// does with a write to a pixel that it does not have is its own business; the
/// trace holds that write all the same.
pub trait Displayable {
    /// The writes received so far, oldest first.
    spec fn trace(&self) -> Seq<(int, int, Color)>;

    /// Whether the surface has a pixel at `(x, y)`.
    spec fn covers(&self, x: int, y: int) -> bool;

    /// Sets the pixel at `(x, y)` to `color`. A write does not change which
    /// pixels the surface has.
    fn display(&mut self, x: i32, y: i32, color: Color)
        ensures
            final(self).trace() == old(self).trace().push((x as int, y as int, color)),
            forall|u: int, v: int| #[trigger] final(self).covers(u, v) == old(self).covers(u, v),
    ;
}

/// Whether two surfaces have the same pixels.
pub open spec fn same_pixels<S: Displayable>(one: S, other: S) -> bool {
    forall|x: int, y: int| #[trigger] one.covers(x, y) == other.covers(x, y)
}

/// The writes that set each of `pixels`, in order, to `color`.
pub open spec fn inked(pixels: Seq<(int, int)>, color: Color) -> Seq<(int, int, Color)> {
    Seq::new(pixels.len(), |i: int| (pixels[i].0, pixels[i].1, color))
}

/// Inking one pixel more appends one write.
pub proof fn lemma_inked_take(pixels: Seq<(int, int)>, k: int, color: Color)
    requires
        0 <= k < pixels.len(),
    ensures
        inked(pixels.take(k + 1), color) == inked(pixels.take(k), color).push(
            (pixels[k].0, pixels[k].1, color),
        ),
{
    assert(inked(pixels.take(k + 1), color) =~= inked(pixels.take(k), color).push(
        (pixels[k].0, pixels[k].1, color),
    ));
}

/// Inking a concatenation is concatenating the inked parts.
pub proof fn lemma_inked_add(first: Seq<(int, int)>, second: Seq<(int, int)>, color: Color)
    ensures
        inked(first + second, color) == inked(first, color) + inked(second, color),
{
    assert(inked(first + second, color) =~= inked(first, color) + inked(second, color));
}

/// What a trace leaves to be seen: at each position that was written, the
/// colour of the last write there.
pub open spec fn painted(trace: Seq<(int, int, Color)>) -> Map<(int, int), Color>
    decreases trace.len(),
{
    if trace.len() == 0 {
        Map::empty()
    } else {
        painted(trace.drop_last()).insert((trace.last().0, trace.last().1), trace.last().2)
    }
}

/// A write after which no other goes to the same position is what is seen
/// there.
pub proof fn lemma_painted_last(trace: Seq<(int, int, Color)>, i: int)
    requires
        0 <= i < trace.len(),
        forall|j: int|
            i < j < trace.len() ==> (#[trigger] trace[j]).0 != trace[i].0 || trace[j].1
                != trace[i].1,
    ensures
        painted(trace).dom().contains((trace[i].0, trace[i].1)),
        painted(trace)[(trace[i].0, trace[i].1)] == trace[i].2,
    decreases trace.len(),
{
    if i < trace.len() - 1 {
        let rest = trace.drop_last();
        assert(rest[i] == trace[i]);
        assert forall|j: int| i < j < rest.len() implies (#[trigger] rest[j]).0 != rest[i].0
            || rest[j].1 != rest[i].1 by {
            assert(rest[j] == trace[j]);
        }
        lemma_painted_last(rest, i);
        assert(trace[trace.len() - 1] == trace.last());
    }
}

/// After `pixels` were inked in one colour, each of them shows that colour,
/// and every other position shows what it showed before.
pub proof fn lemma_painted_over(
    before: Seq<(int, int, Color)>,
    pixels: Seq<(int, int)>,
    color: Color,
)
    ensures
        painted(before + inked(pixels, color)) == Map::new(
            |p: (int, int)| pixels.contains(p) || painted(before).dom().contains(p),
            |p: (int, int)|
                if pixels.contains(p) {
                    color
                } else {
                    painted(before)[p]
                },
        ),
    decreases pixels.len(),
{
    let target = Map::new(
        |p: (int, int)| pixels.contains(p) || painted(before).dom().contains(p),
        |p: (int, int)|
            if pixels.contains(p) {
                color
            } else {
                painted(before)[p]
            },
    );
    if pixels.len() == 0 {
        assert(before + inked(pixels, color) =~= before);
        assert(painted(before) =~= target);
    } else {
        let rest = pixels.drop_last();
        let last = pixels.last();
        let whole = before + inked(pixels, color);
        lemma_painted_over(before, rest, color);
        assert(whole.drop_last() =~= before + inked(rest, color));
        assert(whole.last() == (last.0, last.1, color));
        assert forall|p: (int, int)| pixels.contains(p) <==> rest.contains(p) || p == last by {
            if pixels.contains(p) {
                let i = choose|i: int| 0 <= i < pixels.len() && pixels[i] == p;
                if i < pixels.len() - 1 {
                    assert(rest[i] == p);
                }
            }
            if rest.contains(p) {
                let i = choose|i: int| 0 <= i < rest.len() && rest[i] == p;
                assert(pixels[i] == p);
            }
            if p == last {
                assert(pixels[pixels.len() - 1] == p);
            }
        }
        assert(painted(whole) =~= target);
    }
}

/// Drawing the same pixels a second time in the same colour changes nothing
/// of what is to be seen.
pub proof fn lemma_inked_twice(
    before: Seq<(int, int, Color)>,
    pixels: Seq<(int, int)>,
    color: Color,
)
    ensures
        painted(before + inked(pixels, color) + inked(pixels, color)) == painted(
            before + inked(pixels, color),
        ),
{
    lemma_painted_over(before, pixels, color);
    lemma_painted_over(before + inked(pixels, color), pixels, color);
    assert(painted(before + inked(pixels, color) + inked(pixels, color)) =~= painted(
        before + inked(pixels, color),
    ));
}

/// One write to a surface.
#[derive(Clone, Copy, Debug, PartialEq, Eq, Structural)]
pub struct Mark {
    /// Column of the pixel.
    pub x: i32,
    /// Row of the pixel.
    pub y: i32,
    /// The colour written.
    pub color: Color,
}

impl Mark {
    /// The write as a mathematical triple.
    pub open spec fn triple(self) -> (int, int, Color) {
        (self.x as int, self.y as int, self.color)
    }
}

/// A surface that has a pixel everywhere and keeps every write, in order.
pub struct Recorder {
    /// The writes received so far, oldest first.
    pub marks: Vec<Mark>,
}

impl Recorder {
    /// A surface that has received no write.
    pub fn new() -> (surface: Recorder)
        ensures
            surface.marks@ == Seq::<Mark>::empty(),
            surface.trace() == Seq::<(int, int, Color)>::empty(),
    {
        let surface = Recorder { marks: Vec::new() };
        assert(surface.trace() =~= Seq::<(int, int, Color)>::empty());
        surface
    }
}

impl Displayable for Recorder {
    open spec fn trace(&self) -> Seq<(int, int, Color)> {
        Seq::new(self.marks@.len(), |i: int| self.marks@[i].triple())
    }

    open spec fn covers(&self, x: int, y: int) -> bool {
        true
    }

    fn display(&mut self, x: i32, y: i32, color: Color)
        ensures
            final(self).marks@ == old(self).marks@.push(Mark { x, y, color }),
    {
        self.marks.push(Mark { x, y, color });
        assert(self.trace() =~= old(self).trace().push((x as int, y as int, color)));
    }
}

} // verus!
