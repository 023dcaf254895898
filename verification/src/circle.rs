//! Circles, sampled in given directions.

use vstd::prelude::*;
use crate::random::random_below;
use crate::color::Color;
use crate::drawable::Drawable;
use crate::error::ShapeError;
use crate::point::Point;
use crate::rounding::{lemma_nearest_close, lemma_nearest_exact, nearest};
use crate::surface::{inked, lemma_inked_take, same_pixels, Displayable};

verus! {

/// The length of a unit vector in the fixed-point units of a `Direction`:
/// 2 to the power 40.
pub const UNIT: i64 = 0x100_0000_0000;

/// Whether the vector `(cos, sin)`, in units of `1 / UNIT`, is as close to
/// length one as a unit vector rounded to those units is.
pub open spec fn is_unit(cos: int, sin: int) -> bool {
    -2 * UNIT <= cos * cos + sin * sin - UNIT * UNIT <= 2 * UNIT
}

/// A direction of the plane: the cosine and the sine of an angle, in units of
/// `1 / UNIT`.
#[derive(Clone, Copy, Debug, PartialEq, Eq)]
pub struct Direction {
    cos: i64,
    sin: i64,
}

impl Direction {
    /// The cosine, in units of `1 / UNIT`.
    pub closed spec fn cos(self) -> int {
        self.cos as int
    }

    /// The sine, in units of `1 / UNIT`.
    pub closed spec fn sin(self) -> int {
        self.sin as int
    }

    /// Every direction is a unit vector.
    #[verifier::type_invariant]
    pub open spec fn well_formed(self) -> bool {
        is_unit(self.cos(), self.sin())
    }

    /// The direction with the given cosine and sine, if they make a unit
    /// vector.
    pub fn new(cos: i64, sin: i64) -> (d: Option<Direction>)
        ensures
            d is Some <==> is_unit(cos as int, sin as int),
            d matches Some(v) ==> v.cos() == cos && v.sin() == sin && v.well_formed(),
    {
        let limit: i64 = UNIT + 1;
        if cos < -limit || cos > limit || sin < -limit || sin > limit {
            proof {
                let c = cos as int;
                let s = sin as int;
                let l = limit as int;
                assert(c * c + s * s >= (l + 1) * (l + 1)) by (nonlinear_arith)
                    requires
                        c < -l || c > l || s < -l || s > l,
                        l >= 0,
                ;
            }
            return None;
        }
        let c: i128 = cos as i128;
        let s: i128 = sin as i128;
        let u: i128 = UNIT as i128;
        assert(0 <= c * c <= (u + 1) * (u + 1) && 0 <= s * s <= (u + 1) * (u + 1))
            by (nonlinear_arith)
            requires
                -(u + 1) <= c <= u + 1,
                -(u + 1) <= s <= u + 1,
        ;
        let excess: i128 = c * c + s * s - u * u;
        if -2 * u <= excess && excess <= 2 * u {
            Some(Direction { cos, sin })
        } else {
            None
        }
    }
}

/// A circle: its centre and its radius. A circle with a negative radius can
/// be held, but not drawn.
#[derive(Clone, Copy, Debug, PartialEq, Eq, Structural)]
pub struct Circle {
    /// The centre.
    pub center: Point,
    /// The radius, in pixels.
    pub radius: i32,
}

/// The number nearest to `v` among those that an `i32` holds.
pub open spec fn saturated(v: int) -> int {
    if v < i32::MIN {
        i32::MIN as int
    } else if v > i32::MAX {
        i32::MAX as int
    } else {
        v
    }
}

/// The point of the plane nearest to where the circle is met in direction
/// `d`: each coordinate is `center + radius * d`, rounded.
pub open spec fn circle_point(center: Point, radius: int, d: Direction) -> (int, int) {
    (
        nearest(center.x * UNIT + radius * d.cos(), UNIT as int),
        nearest(center.y * UNIT + radius * d.sin(), UNIT as int),
    )
}

/// The pixel that the circle sets in direction `d`: its point in that
/// direction, each coordinate brought into the range of `i32`.
pub open spec fn circle_pixel(center: Point, radius: int, d: Direction) -> (int, int) {
    (saturated(circle_point(center, radius, d).0), saturated(circle_point(center, radius, d).1))
}

/// The pixels of the circle, one for each direction of the sweep, in the
/// order of the sweep.
pub open spec fn circle_pixels(center: Point, radius: int, sweep: Seq<Direction>) -> Seq<
    (int, int),
> {
    Seq::new(sweep.len(), |k: int| circle_pixel(center, radius, sweep[k]))
}

/// `center + radius * part / UNIT`, rounded and brought into the range of
/// `i32`.
fn reach(center: i32, radius: i32, part: i64) -> (v: i32)
    requires
        radius >= 0,
    ensures
        v == saturated(nearest(center * UNIT + radius * part, UNIT as int)),
{
    let u: i128 = UNIT as i128;
    assert(-0x8000_0000 * 0x8000_0000_0000_0000 <= radius * part <= 0x8000_0000
        * 0x8000_0000_0000_0000) by (nonlinear_arith)
        requires
            0 <= radius <= 0x8000_0000,
            -0x8000_0000_0000_0000 <= part <= 0x8000_0000_0000_0000,
    ;
    let n: i128 = center as i128 * u + radius as i128 * part as i128;
    let v: i128 = if n >= 0 {
        (2 * n + u) / (2 * u)
    } else {
        -((u - 2 * n) / (2 * u))
    };
    if v < i32::MIN as i128 {
        i32::MIN
    } else if v > i32::MAX as i128 {
        i32::MAX
    } else {
        v as i32
    }
}

impl Circle {
    /// The circle round `center` with the given radius.
    pub fn new(center: Point, radius: i32) -> (circle: Circle)
        ensures
            circle == (Circle { center, radius }),
    {
        Circle { center, radius }
    }

    /// The circle round `center` whose radius is the smaller of `a` and `b`.
    pub fn within(center: Point, a: i32, b: i32) -> (circle: Circle)
        ensures
            circle.center == center,
            circle.radius == (if a <= b { a } else { b }),
    {
        Circle::new(center, if a <= b { a } else { b })
    }

    /// A circle drawn at random: its centre from the `width` by `height`
    /// pixels whose corner is the origin, its radius the smaller of a number
    /// below `width` and a number below `height`.
    pub fn random(width: i32, height: i32) -> (circle: Circle)
        requires
            width > 0,
            height > 0,
        ensures
            0 <= circle.center.x < width,
            0 <= circle.center.y < height,
            0 <= circle.radius < width,
            circle.radius < height,
    {
        let x: i32 = random_below(width);
        let y: i32 = random_below(height);
        let center: Point = Point::new(x, y);
        let a: i32 = random_below(width);
        let b: i32 = random_below(height);
        Circle::within(center, a, b)
    }
}

impl Drawable for Circle {
    open spec fn pixels(&self, sweep: Seq<Direction>) -> Seq<(int, int)> {
        circle_pixels(self.center, self.radius as int, sweep)
    }

    open spec fn refusal(&self) -> Option<ShapeError> {
        if self.radius < 0 {
            Some(ShapeError::NegativeRadius)
        } else {
            None
        }
    }

    fn draw<S: Displayable>(
        &self,
        surface: &mut S,
        color: Color,
        sweep: &Vec<Direction>,
    ) -> (done: Result<(), ShapeError>)
        ensures
            self.radius >= 0 ==> forall|k: int|
                0 <= k < sweep@.len() ==> on_outline(
                    self.center,
                    self.radius as int,
                    #[trigger] sweep@[k],
                ),
    {
        if self.radius < 0 {
            return Err(ShapeError::NegativeRadius);
        }
        let ghost pixels = circle_pixels(self.center, self.radius as int, sweep@);
        let mut k: usize = 0;
        assert(inked(pixels.take(0), color) =~= Seq::<(int, int, Color)>::empty());
        assert(surface.trace() =~= old(surface).trace() + inked(pixels.take(0), color));
        while k < sweep.len()
            invariant
                0 <= k <= sweep.len(),
                self.radius >= 0,
                pixels == circle_pixels(self.center, self.radius as int, sweep@),
                surface.trace() == old(surface).trace() + inked(pixels.take(k as int), color),
                same_pixels(*surface, *old(surface)),
                forall|j: int|
                    0 <= j < k ==> on_outline(
                        self.center,
                        self.radius as int,
                        #[trigger] sweep@[j],
                    ),
            decreases sweep.len() - k,
        {
            let d: Direction = sweep[k];
            proof {
                use_type_invariant(&d);
                lemma_circle_near_outline(self.center, self.radius as int, d);
            }
            let x: i32 = reach(self.center.x, self.radius, d.cos);
            let y: i32 = reach(self.center.y, self.radius, d.sin);
            surface.display(x, y, color);
            proof {
                assert(pixels[k as int] == (x as int, y as int));
                lemma_inked_take(pixels, k as int, color);
            }
            k = k + 1;
        }
        assert(pixels.take(k as int) =~= pixels);
        Ok(())
    }
}

/// Whether the offset `(x, y)` from the centre of a circle of the given
/// radius lies no further than one pixel from the circle.
pub open spec fn near_circle(x: int, y: int, radius: int) -> bool {
    &&& x * x + y * y <= (radius + 1) * (radius + 1)
    &&& radius >= 1 ==> (radius - 1) * (radius - 1) <= x * x + y * y
}

/// Whether the point of the circle in direction `d` lies no further than one
/// pixel from the circle.
pub open spec fn on_outline(center: Point, radius: int, d: Direction) -> bool {
    near_circle(
        circle_point(center, radius, d).0 - center.x,
        circle_point(center, radius, d).1 - center.y,
        radius,
    )
}

/// The inner product of two vectors is at most the product of two bounds on
/// their lengths.
proof fn lemma_inner_product(a: int, b: int, u: int, v: int, long: int, short: int)
    requires
        0 <= long,
        0 <= short,
        a * a + b * b <= long * long,
        u * u + v * v <= short * short,
    ensures
        -(long * short) <= a * u + b * v <= long * short,
{
    let aa = a * a;
    let bb = b * b;
    let uu = u * u;
    let vv = v * v;
    let p = aa + bb;
    let q = uu + vv;
    let au = a * u;
    let bv = b * v;
    let av = a * v;
    let bu = b * u;
    let m = au + bv;
    let n = long * short;
    assert(aa >= 0 && bb >= 0 && uu >= 0 && vv >= 0) by (nonlinear_arith)
        requires
            aa == a * a,
            bb == b * b,
            uu == u * u,
            vv == v * v,
    ;
    // (a*a + b*b) * (u*u + v*v) - (a*u + b*v)^2 == (a*v - b*u)^2, term by term
    assert(aa * uu == au * au) by (nonlinear_arith)
        requires
            aa == a * a,
            uu == u * u,
            au == a * u,
    ;
    assert(bb * vv == bv * bv) by (nonlinear_arith)
        requires
            bb == b * b,
            vv == v * v,
            bv == b * v,
    ;
    assert(aa * vv == av * av) by (nonlinear_arith)
        requires
            aa == a * a,
            vv == v * v,
            av == a * v,
    ;
    assert(bb * uu == bu * bu) by (nonlinear_arith)
        requires
            bb == b * b,
            uu == u * u,
            bu == b * u,
    ;
    assert(av * bu == au * bv) by (nonlinear_arith)
        requires
            av == a * v,
            bu == b * u,
            au == a * u,
            bv == b * v,
    ;
    assert(p * q == aa * uu + aa * vv + bb * uu + bb * vv) by (nonlinear_arith)
        requires
            p == aa + bb,
            q == uu + vv,
    ;
    assert(m * m == au * au + 2 * (au * bv) + bv * bv) by (nonlinear_arith)
        requires
            m == au + bv,
    ;
    assert((av - bu) * (av - bu) == av * av - 2 * (av * bu) + bu * bu) by (nonlinear_arith);
    assert((av - bu) * (av - bu) >= 0) by (nonlinear_arith);
    assert(m * m <= p * q);
    assert(p * q <= n * n) by (nonlinear_arith)
        requires
            0 <= p <= long * long,
            0 <= q <= short * short,
            n == long * short,
    ;
    assert(-n <= m <= n) by (nonlinear_arith)
        requires
            m * m <= n * n,
            n >= 0,
    ;
}

/// A vector of about `radius` units, moved by half a unit at most along each
/// axis, is between `radius - 1` and `radius + 1` units long. The unit is
/// `32 * w`; the vector `(x, y)` is counted in units, `(c, s)` is a unit
/// vector.
proof fn lemma_rounded_offset(radius: int, c: int, s: int, x: int, y: int, w: int)
    requires
        w >= 2,
        0 <= radius,
        8 * radius <= w,
        -2 * (32 * w) <= c * c + s * s - (32 * w) * (32 * w) <= 2 * (32 * w),
        -(32 * w) <= 2 * ((32 * w) * x - radius * c) <= 32 * w,
        -(32 * w) <= 2 * ((32 * w) * y - radius * s) <= 32 * w,
    ensures
        near_circle(x, y, radius),
{
    let unit = 32 * w;
    let a = radius * c;
    let b = radius * s;
    let u = unit * x - a;
    let v = unit * y - b;
    let long = radius * (unit + 1);
    let short = 23 * w;
    let p = a * a + b * b;
    let q = u * u + v * v;
    let m = a * u + b * v;
    let norm = c * c + s * s;
    let rr = radius * radius;
    assert(p == rr * norm) by (nonlinear_arith)
        requires
            p == (radius * c) * (radius * c) + (radius * s) * (radius * s),
            norm == c * c + s * s,
            rr == radius * radius,
    ;
    assert(rr >= 0) by (nonlinear_arith)
        requires
            rr == radius * radius,
    ;
    assert(rr * (unit * unit - 2 * unit) <= p <= rr * (unit * unit + 2 * unit))
        by (nonlinear_arith)
        requires
            p == rr * norm,
            rr >= 0,
            unit * unit - 2 * unit <= norm <= unit * unit + 2 * unit,
    ;
    assert(long * long == rr * (unit * unit + 2 * unit) + rr) by (nonlinear_arith)
        requires
            long == radius * (unit + 1),
            rr == radius * radius,
    ;
    assert(4 * (u * u) <= unit * unit) by (nonlinear_arith)
        requires
            -unit <= 2 * u <= unit,
    ;
    assert(4 * (v * v) <= unit * unit) by (nonlinear_arith)
        requires
            -unit <= 2 * v <= unit,
    ;
    assert(unit * unit == 1024 * (w * w) && short * short == 529 * (w * w)) by (nonlinear_arith)
        requires
            unit == 32 * w,
            short == 23 * w,
    ;
    assert(w * w >= 0) by (nonlinear_arith);
    assert(0 <= q <= short * short) by (nonlinear_arith)
        requires
            q == u * u + v * v,
            4 * (u * u) <= unit * unit,
            4 * (v * v) <= unit * unit,
            unit * unit == 1024 * (w * w),
            short * short == 529 * (w * w),
            w * w >= 0,
    ;
    assert(p >= 0) by (nonlinear_arith)
        requires
            p == a * a + b * b,
    ;
    assert(rr * (unit * unit + 2 * unit) <= long * long);
    assert(long >= 0) by (nonlinear_arith)
        requires
            long == radius * (unit + 1),
            radius >= 0,
            unit >= 0,
    ;
    lemma_inner_product(a, b, u, v, long, short);
    let n = long * short;
    let sx = unit * x;
    let sy = unit * y;
    let far = sx * sx + sy * sy;
    assert(far == p + 2 * m + q) by (nonlinear_arith)
        requires
            far == sx * sx + sy * sy,
            sx == a + u,
            sy == b + v,
            p == a * a + b * b,
            q == u * u + v * v,
            m == a * u + b * v,
    ;
    let flat = x * x + y * y;
    assert(unit * unit > 0) by (nonlinear_arith)
        requires
            unit >= 64,
    ;
    assert(far == (unit * unit) * flat) by (nonlinear_arith)
        requires
            far == (unit * x) * (unit * x) + (unit * y) * (unit * y),
            flat == x * x + y * y,
    ;
    // no further out than radius + 1
    let outer = unit * (radius + 1);
    assert(far <= (long + short) * (long + short)) by (nonlinear_arith)
        requires
            far == p + 2 * m + q,
            p <= long * long,
            q <= short * short,
            m <= long * short,
    ;
    assert(0 <= long + short <= outer) by (nonlinear_arith)
        requires
            long == radius * (unit + 1),
            outer == unit * (radius + 1),
            short == 23 * w,
            unit == 32 * w,
            0 <= radius,
            8 * radius <= w,
            0 <= long,
    ;
    assert((long + short) * (long + short) <= outer * outer) by (nonlinear_arith)
        requires
            0 <= long + short <= outer,
    ;
    assert(outer * outer == (unit * unit) * ((radius + 1) * (radius + 1))) by (nonlinear_arith)
        requires
            outer == unit * (radius + 1),
    ;
    assert(flat <= (radius + 1) * (radius + 1)) by (nonlinear_arith)
        requires
            (unit * unit) * flat <= (unit * unit) * ((radius + 1) * (radius + 1)),
            unit * unit > 0,
    ;
    // no further in than radius - 1
    assert(flat >= 0) by (nonlinear_arith)
        requires
            flat == x * x + y * y,
    ;
    if radius >= 2 {
        let inner = unit * (radius - 1);
        let least = rr * (unit * unit - 2 * unit);
        assert(far >= least - 2 * n) by (nonlinear_arith)
            requires
                far == p + 2 * m + q,
                p >= least,
                q >= 0,
                m >= -n,
        ;
        assert(least - 2 * n >= inner * inner) by {
            lemma_inner_rim(radius, w);
        }
        assert(inner * inner == (unit * unit) * ((radius - 1) * (radius - 1)))
            by (nonlinear_arith)
            requires
                inner == unit * (radius - 1),
        ;
        assert(flat >= (radius - 1) * (radius - 1)) by (nonlinear_arith)
            requires
                (unit * unit) * flat >= (unit * unit) * ((radius - 1) * (radius - 1)),
                unit * unit > 0,
        ;
    } else if radius == 1 {
        assert((radius - 1) * (radius - 1) == 0);
    }
}

/// What is left of the squared length of the vector at the least, once the
/// rounding is taken off, is still the square of `radius - 1` units.
proof fn lemma_inner_rim(radius: int, w: int)
    requires
        w >= 2,
        2 <= radius,
        8 * radius <= w,
    ensures
        (radius * radius) * ((32 * w) * (32 * w) - 2 * (32 * w)) - 2 * ((radius * (32 * w + 1)) * (
        23 * w)) >= ((32 * w) * (radius - 1)) * ((32 * w) * (radius - 1)),
{
    let rr = radius * radius;
    let ww = w * w;
    let rw = radius * w;
    // the claim, multiplied out in these three products
    assert((radius * radius) * ((32 * w) * (32 * w) - 2 * (32 * w)) == 1024 * (rr * ww) - 64 * (rr
        * w)) by (nonlinear_arith)
        requires
            rr == radius * radius,
            ww == w * w,
    ;
    assert(2 * ((radius * (32 * w + 1)) * (23 * w)) == 1472 * (radius * ww) + 46 * rw)
        by (nonlinear_arith)
        requires
            ww == w * w,
            rw == radius * w,
    ;
    assert(((32 * w) * (radius - 1)) * ((32 * w) * (radius - 1)) == 1024 * (rr * ww) - 2048 * (
    radius * ww) + 1024 * ww) by (nonlinear_arith)
        requires
            rr == radius * radius,
            ww == w * w,
    ;
    // 576 * radius * ww >= 1024 * ww + 64 * rr * w + 46 * radius * w
    assert(512 * (radius * ww) >= 1024 * ww) by (nonlinear_arith)
        requires
            radius >= 2,
            ww >= 0,
    ;
    assert(ww >= 0) by (nonlinear_arith)
        requires
            ww == w * w,
    ;
    assert(8 * (rr * w) <= radius * ww) by (nonlinear_arith)
        requires
            rr == radius * radius,
            ww == w * w,
            8 * radius <= w,
            radius >= 0,
            w >= 0,
    ;
    assert(46 * rw <= 32 * (radius * ww)) by (nonlinear_arith)
        requires
            rw == radius * w,
            ww == w * w,
            w >= 2,
            radius >= 0,
    ;
}

/// Every point of a circle lies no further than one pixel from the circle,
/// and it is the pixel that is set wherever the circle, with a margin of one
/// pixel, lies within the range of `i32`.
pub proof fn lemma_circle_near_outline(center: Point, radius: int, d: Direction)
    requires
        0 <= radius <= i32::MAX,
        d.well_formed(),
    ensures
        on_outline(center, radius, d),
        i32::MIN <= center.x - radius - 1 && center.x + radius + 1 <= i32::MAX && i32::MIN
            <= center.y - radius - 1 && center.y + radius + 1 <= i32::MAX ==> circle_pixel(
            center,
            radius,
            d,
        ) == circle_point(center, radius, d),
{
    let unit = UNIT as int;
    let point = circle_point(center, radius, d);
    let x = point.0 - center.x;
    let y = point.1 - center.y;
    lemma_nearest_close(center.x * unit + radius * d.cos(), unit);
    lemma_nearest_close(center.y * unit + radius * d.sin(), unit);
    assert(unit == 32 * 0x8_0000_0000);
    lemma_rounded_offset(radius, d.cos(), d.sin(), x, y, 0x8_0000_0000);
    assert(-(radius + 1) <= x <= radius + 1 && -(radius + 1) <= y <= radius + 1)
        by (nonlinear_arith)
        requires
            x * x + y * y <= (radius + 1) * (radius + 1),
            radius >= 0,
    ;
}

/// A circle of radius zero sets its centre, whatever the direction.
pub proof fn lemma_circle_of_radius_zero(center: Point, d: Direction)
    ensures
        circle_pixel(center, 0, d) == (center.x as int, center.y as int),
{
    lemma_nearest_exact(center.x as int, UNIT as int);
    lemma_nearest_exact(center.y as int, UNIT as int);
    assert(0 * d.cos() == 0 && 0 * d.sin() == 0);
}

} // verus!
