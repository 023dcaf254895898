//! Line segments and the walk that rasterizes them.
//!
//! A segment from `from` to `to` is walked in as many steps as its larger
//! extent is long, so that the walk moves by one pixel along that axis and by
//! a fraction of a pixel along the other. Each position is rounded to the
//! nearest pixel. The walk keeps each coordinate as a whole number and a
//! remainder and only adds: the positions are exact, and the last one is `to`.

use vstd::prelude::*;
use crate::random::random_below;
use crate::circle::Direction;
use crate::color::Color;
use crate::drawable::Drawable;
use crate::error::ShapeError;
use crate::point::Point;
use crate::rounding::{
    lemma_nearest_between,
    lemma_nearest_exact,
    lemma_nearest_of_parts,
    lemma_nearest_step,
    lemma_parts_between,
    lemma_whole_position,
    nearest,
    rounded,
};
use crate::surface::{inked, lemma_inked_take, same_pixels, Displayable};

verus! {

/// A segment between two points, which may coincide.
#[derive(Clone, Copy, Debug, PartialEq, Eq, Structural)]
pub struct Line {
    /// Where the segment starts.
    pub p1: Point,
    /// Where the segment ends.
    pub p2: Point,
}

/// The distance between two numbers.
pub open spec fn extent(a: int, b: int) -> int {
    if a <= b {
        b - a
    } else {
        a - b
    }
}

/// The smaller of two numbers.
pub open spec fn lower(a: int, b: int) -> int {
    if a <= b {
        a
    } else {
        b
    }
}

/// The larger of two numbers.
pub open spec fn upper(a: int, b: int) -> int {
    if a <= b {
        b
    } else {
        a
    }
}

/// The number of steps of the walk from `from` to `to`: the larger of the two
/// extents of the segment.
pub open spec fn line_steps(from: Point, to: Point) -> int {
    let w = extent(from.x as int, to.x as int);
    let h = extent(from.y as int, to.y as int);
    if w >= h {
        w
    } else {
        h
    }
}

/// The number of parts that each step is a fraction of: the number of steps,
/// and 1 where the two points coincide.
pub open spec fn line_parts(from: Point, to: Point) -> int {
    if line_steps(from, to) == 0 {
        1
    } else {
        line_steps(from, to)
    }
}

/// The pixel of the walk after `i` steps.
pub open spec fn line_pixel(from: Point, to: Point, i: int) -> (int, int) {
    let d = line_parts(from, to);
    (
        nearest(from.x * d + i * (to.x - from.x), d),
        nearest(from.y * d + i * (to.y - from.y), d),
    )
}

/// The pixels of the segment from `from` to `to`, in the order of the walk:
/// one for the start and one for each step.
pub open spec fn line_pixels(from: Point, to: Point) -> Seq<(int, int)> {
    Seq::new((line_steps(from, to) + 1) as nat, |i: int| line_pixel(from, to, i))
}

/// A coordinate of the walk stays between its two ends.
proof fn lemma_position_between(a: int, b: int, d: int, i: int)
    requires
        d > 0,
        0 <= i <= d,
    ensures
        a <= b ==> a * d <= a * d + i * (b - a) <= b * d,
        b <= a ==> b * d <= a * d + i * (b - a) <= a * d,
{
    assert(a * d + d * (b - a) == b * d) by (nonlinear_arith);
    if a <= b {
        assert(0 <= i * (b - a) <= d * (b - a)) by (nonlinear_arith)
            requires
                0 <= i <= d,
                a <= b,
        ;
    } else {
        assert(d * (b - a) <= i * (b - a) <= 0) by (nonlinear_arith)
            requires
                0 <= i <= d,
                b <= a,
        ;
    }
}

/// A segment has one pixel for its start and one for each step; the first is
/// its start and the last is its end, exactly.
pub proof fn lemma_line_ends(from: Point, to: Point)
    ensures
        line_pixels(from, to).len() == line_steps(from, to) + 1,
        line_pixels(from, to).first() == (from.x as int, from.y as int),
        line_pixels(from, to).last() == (to.x as int, to.y as int),
{
    let d = line_parts(from, to);
    let steps = line_steps(from, to);
    lemma_nearest_exact(from.x as int, d);
    lemma_nearest_exact(from.y as int, d);
    lemma_nearest_exact(to.x as int, d);
    lemma_nearest_exact(to.y as int, d);
    assert(0 * (to.x - from.x) == 0 && 0 * (to.y - from.y) == 0);
    assert(from.x * d + steps * (to.x - from.x) == to.x * d) by (nonlinear_arith)
        requires
            steps == d || (steps == 0 && d == 1 && to.x == from.x),
    ;
    assert(from.y * d + steps * (to.y - from.y) == to.y * d) by (nonlinear_arith)
        requires
            steps == d || (steps == 0 && d == 1 && to.y == from.y),
    ;
}

/// The segment from a point to itself is that one pixel.
pub proof fn lemma_line_of_one_point(p: Point)
    ensures
        line_pixels(p, p) == seq![(p.x as int, p.y as int)],
{
    lemma_line_ends(p, p);
    assert(line_pixels(p, p) =~= seq![(p.x as int, p.y as int)]);
}

/// Whether a pixel lies within the box that two points span.
pub open spec fn in_box(pixel: (int, int), a: Point, b: Point) -> bool {
    &&& lower(a.x as int, b.x as int) <= pixel.0 <= upper(a.x as int, b.x as int)
    &&& lower(a.y as int, b.y as int) <= pixel.1 <= upper(a.y as int, b.y as int)
}

/// No pixel of a segment leaves the box that its two ends span.
pub proof fn lemma_line_within_box(from: Point, to: Point)
    ensures
        forall|i: int|
            0 <= i < line_pixels(from, to).len() ==> in_box(
                #[trigger] line_pixels(from, to)[i],
                from,
                to,
            ),
{
    let d = line_parts(from, to);
    assert forall|i: int| 0 <= i < line_pixels(from, to).len() implies in_box(
        #[trigger] line_pixels(from, to)[i],
        from,
        to,
    ) by {
        lemma_position_between(from.x as int, to.x as int, d, i);
        lemma_position_between(from.y as int, to.y as int, d, i);
        lemma_nearest_between(
            lower(from.x as int, to.x as int),
            upper(from.x as int, to.x as int),
            from.x * d + i * (to.x - from.x),
            d,
        );
        lemma_nearest_between(
            lower(from.y as int, to.y as int),
            upper(from.y as int, to.y as int),
            from.y * d + i * (to.y - from.y),
            d,
        );
    }
}

/// Every pixel of a vertical segment lies in the column of its ends, and
/// every pixel of a horizontal segment in their row.
pub proof fn lemma_line_along_axis(from: Point, to: Point)
    ensures
        from.x == to.x ==> forall|i: int|
            0 <= i < line_pixels(from, to).len() ==> (#[trigger] line_pixels(from, to)[i]).0
                == from.x,
        from.y == to.y ==> forall|i: int|
            0 <= i < line_pixels(from, to).len() ==> (#[trigger] line_pixels(from, to)[i]).1
                == from.y,
{
    lemma_line_within_box(from, to);
}

/// Along its larger extent a segment moves by exactly one pixel with each
/// step.
pub proof fn lemma_line_step_by_step(from: Point, to: Point)
    ensures
        extent(from.x as int, to.x as int) == line_steps(from, to) ==> forall|i: int|
            0 <= i < line_pixels(from, to).len() ==> (#[trigger] line_pixels(from, to)[i]).0 == (
            if from.x <= to.x {
                from.x + i
            } else {
                from.x - i
            }),
        extent(from.y as int, to.y as int) == line_steps(from, to) ==> forall|i: int|
            0 <= i < line_pixels(from, to).len() ==> (#[trigger] line_pixels(from, to)[i]).1 == (
            if from.y <= to.y {
                from.y + i
            } else {
                from.y - i
            }),
{
    let d = line_parts(from, to);
    let steps = line_steps(from, to);
    if extent(from.x as int, to.x as int) == steps {
        assert forall|i: int| 0 <= i < line_pixels(from, to).len() implies (
        #[trigger] line_pixels(from, to)[i]).0 == (if from.x <= to.x {
            from.x + i
        } else {
            from.x - i
        }) by {
            lemma_along_larger_extent(from.x as int, to.x as int, d, i);
        }
    }
    if extent(from.y as int, to.y as int) == steps {
        assert forall|i: int| 0 <= i < line_pixels(from, to).len() implies (
        #[trigger] line_pixels(from, to)[i]).1 == (if from.y <= to.y {
            from.y + i
        } else {
            from.y - i
        }) by {
            lemma_along_larger_extent(from.y as int, to.y as int, d, i);
        }
    }
}

/// Whether two pixels are the same or touch, by a side or by a corner.
pub open spec fn touching(a: (int, int), b: (int, int)) -> bool {
    &&& -1 <= b.0 - a.0 <= 1
    &&& -1 <= b.1 - a.1 <= 1
}

/// A segment has no gap: each of its pixels touches the next.
pub proof fn lemma_line_connected(from: Point, to: Point)
    ensures
        forall|i: int|
            0 <= i < line_pixels(from, to).len() - 1 ==> touching(
                #[trigger] line_pixels(from, to)[i],
                line_pixels(from, to)[i + 1],
            ),
{
    let d = line_parts(from, to);
    assert forall|i: int| 0 <= i < line_pixels(from, to).len() - 1 implies touching(
        #[trigger] line_pixels(from, to)[i],
        line_pixels(from, to)[i + 1],
    ) by {
        lemma_next_position(from.x as int, to.x as int, d, i);
        lemma_next_position(from.y as int, to.y as int, d, i);
    }
}

/// A coordinate of the walk moves by one pixel at most with each step.
proof fn lemma_next_position(a: int, b: int, d: int, i: int)
    requires
        d > 0,
        extent(a, b) <= d,
    ensures
        -1 <= nearest(a * d + (i + 1) * (b - a), d) - nearest(a * d + i * (b - a), d) <= 1,
{
    let n = a * d + i * (b - a);
    let e = b - a;
    assert(a * d + (i + 1) * (b - a) == n + e) by (nonlinear_arith)
        requires
            n == a * d + i * (b - a),
            e == b - a,
    ;
    if e == d {
        assert(n == (a + i) * d) by (nonlinear_arith)
            requires
                n == a * d + i * (b - a),
                b - a == d,
        ;
        lemma_whole_position(a + i, d);
    } else if e == -d {
        assert(n == (a - i) * d) by (nonlinear_arith)
            requires
                n == a * d + i * (b - a),
                b - a == -d,
        ;
        lemma_whole_position(a - i, d);
    }
    lemma_nearest_step(n, e, d);
}

/// A coordinate whose extent is the number of parts moves by a whole pixel a
/// step.
proof fn lemma_along_larger_extent(a: int, b: int, d: int, i: int)
    requires
        d > 0,
        extent(a, b) == d || (a == b && i == 0),
    ensures
        nearest(a * d + i * (b - a), d) == (if a <= b {
            a + i
        } else {
            a - i
        }),
{
    if a <= b {
        assert(a * d + i * (b - a) == (a + i) * d) by (nonlinear_arith)
            requires
                b - a == d || (a == b && i == 0),
        ;
        lemma_nearest_exact(a + i, d);
    } else {
        assert(a * d + i * (b - a) == (a - i) * d) by (nonlinear_arith)
            requires
                a - b == d,
        ;
        lemma_nearest_exact(a - i, d);
    }
}

/// One step of one coordinate: the position `q + r / d` moves by `delta / d`.
fn advance(q: i64, r: i64, delta: i64, d: i64) -> (next: (i64, i64))
    requires
        0 <= r < d <= 0xffff_ffff,
        -d <= delta <= d,
        i32::MIN <= q <= i32::MAX,
    ensures
        0 <= next.1 < d,
        next.0 * d + next.1 == q * d + r + delta,
        q - 1 <= next.0 <= q + 1,
{
    let moved: i64 = r + delta;
    if moved >= d {
        assert((q + 1) * d + (moved - d) == q * d + moved) by (nonlinear_arith);
        (q + 1, moved - d)
    } else if moved < 0 {
        assert((q - 1) * d + (moved + d) == q * d + moved) by (nonlinear_arith);
        (q - 1, moved + d)
    } else {
        (q, moved)
    }
}

/// Writes the pixels of the segment from `from` to `to` onto `surface`, in
/// the order of the walk.
pub fn draw_segment<S: Displayable>(surface: &mut S, from: Point, to: Point, color: Color)
    ensures
        final(surface).trace() == old(surface).trace() + inked(line_pixels(from, to), color),
        same_pixels(*final(surface), *old(surface)),
{
    let dx: i64 = to.x as i64 - from.x as i64;
    let dy: i64 = to.y as i64 - from.y as i64;
    let w: i64 = if dx >= 0 { dx } else { -dx };
    let h: i64 = if dy >= 0 { dy } else { -dy };
    let steps: i64 = if w >= h { w } else { h };
    let d: i64 = if steps == 0 { 1 } else { steps };
    let ghost pixels = line_pixels(from, to);
    let mut qx: i64 = from.x as i64;
    let mut rx: i64 = 0;
    let mut qy: i64 = from.y as i64;
    let mut ry: i64 = 0;
    let mut i: i64 = 0;
    proof {
        lemma_nearest_exact(from.x as int, d as int);
        lemma_nearest_exact(from.y as int, d as int);
        assert(0 * (to.x - from.x) == 0 && 0 * (to.y - from.y) == 0);
        assert(pixels[0] == (from.x as int, from.y as int));
    }
    surface.display(from.x, from.y, color);
    proof {
        assert(inked(pixels.take(0), color) =~= Seq::<(int, int, Color)>::empty());
        lemma_inked_take(pixels, 0, color);
        assert(surface.trace() =~= old(surface).trace() + inked(pixels.take(1), color));
    }
    while i < steps
        invariant
            0 <= i <= steps,
            steps == line_steps(from, to),
            d == line_parts(from, to),
            dx == to.x - from.x,
            dy == to.y - from.y,
            pixels == line_pixels(from, to),
            0 <= rx < d,
            0 <= ry < d,
            i32::MIN <= qx <= i32::MAX,
            i32::MIN <= qy <= i32::MAX,
            from.x * d + i * dx == qx * d + rx,
            from.y * d + i * dy == qy * d + ry,
            surface.trace() == old(surface).trace() + inked(pixels.take(i + 1), color),
            same_pixels(*surface, *old(surface)),
        decreases steps - i,
    {
        let ghost nx = from.x * d + i * dx;
        let ghost ny = from.y * d + i * dy;
        let (qx1, rx1) = advance(qx, rx, dx, d);
        let (qy1, ry1) = advance(qy, ry, dy, d);
        i = i + 1;
        proof {
            assert(i * dx == (i - 1) * dx + dx) by (nonlinear_arith);
            assert(i * dy == (i - 1) * dy + dy) by (nonlinear_arith);
            lemma_position_between(from.x as int, to.x as int, d as int, i as int);
            lemma_position_between(from.y as int, to.y as int, d as int, i as int);
            let lox = lower(from.x as int, to.x as int);
            let hix = upper(from.x as int, to.x as int);
            let loy = lower(from.y as int, to.y as int);
            let hiy = upper(from.y as int, to.y as int);
            lemma_parts_between(lox, hix, nx + dx, d as int, qx1 as int, rx1 as int);
            lemma_parts_between(loy, hiy, ny + dy, d as int, qy1 as int, ry1 as int);
            lemma_nearest_of_parts(nx + dx, d as int, qx1 as int, rx1 as int);
            lemma_nearest_of_parts(ny + dy, d as int, qy1 as int, ry1 as int);
            lemma_nearest_between(lox, hix, nx + dx, d as int);
            lemma_nearest_between(loy, hiy, ny + dy, d as int);
        }
        qx = qx1;
        rx = rx1;
        qy = qy1;
        ry = ry1;
        let px: i64 = rounded(qx, rx, d);
        let py: i64 = rounded(qy, ry, d);
        surface.display(px as i32, py as i32, color);
        proof {
            assert(pixels[i as int] == (px as int, py as int));
            lemma_inked_take(pixels, i as int, color);
        }
    }
    proof {
        assert(pixels.take(steps + 1) =~= pixels);
    }
}

impl Line {
    /// The segment from `p1` to `p2`.
    pub fn new(p1: Point, p2: Point) -> (line: Line)
        ensures
            line == (Line { p1, p2 }),
    {
        Line { p1, p2 }
    }

    /// A segment whose two ends are drawn at random from the `width` by
    /// `height` pixels whose corner is the origin.
    pub fn random(width: i32, height: i32) -> (line: Line)
        requires
            width > 0,
            height > 0,
        ensures
            0 <= line.p1.x < width,
            0 <= line.p1.y < height,
            0 <= line.p2.x < width,
            0 <= line.p2.y < height,
    {
        let x1: i32 = random_below(width);
        let y1: i32 = random_below(height);
        let p1 = Point::new(x1, y1);
        let x2: i32 = random_below(width);
        let y2: i32 = random_below(height);
        let p2 = Point::new(x2, y2);
        Line::new(p1, p2)
    }
}

impl Drawable for Line {
    open spec fn pixels(&self, sweep: Seq<Direction>) -> Seq<(int, int)> {
        line_pixels(self.p1, self.p2)
    }

    open spec fn refusal(&self) -> Option<ShapeError> {
        None
    }

    fn draw<S: Displayable>(
        &self,
        surface: &mut S,
        color: Color,
        sweep: &Vec<Direction>,
    ) -> (done: Result<(), ShapeError>) {
        draw_segment(surface, self.p1, self.p2, color);
        Ok(())
    }
}

} // verus!
