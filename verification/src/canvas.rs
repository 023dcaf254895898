//! A surface of fixed size, kept in a `raster::Image`.

use vstd::prelude::*;
use vstd::arithmetic::div_mod::{
    lemma_fundamental_div_mod,
    lemma_fundamental_div_mod_converse,
    lemma_mod_bound,
};
use crate::color::Color;
use crate::surface::{lemma_painted_last, painted, same_pixels, Displayable};

verus! {

/// The image type of the `raster` crate. Verus sees nothing inside of it.
#[verifier::external_type_specification]
#[verifier::external_body]
pub struct ExImage(raster::Image);

/// The field `width` of an image: the number of its columns.
pub uninterp spec fn image_width(image: raster::Image) -> int;

/// The field `height` of an image: the number of its rows.
pub uninterp spec fn image_height(image: raster::Image) -> int;

/// The field `bytes` of an image: four bytes for each pixel, red, green, blue
/// and alpha, row after row.
pub uninterp spec fn image_bytes(image: raster::Image) -> Seq<u8>;

/// Whether an image of `width` columns and `height` rows can be worked on:
/// its bytes must be countable in an `i32`, which is what the image computes
/// in.
pub open spec fn fits(width: int, height: int) -> bool {
    0 <= width && 0 <= height && 4 * (width * height) <= i32::MAX
}

/// Whether an image can be worked on: its size fits, and it holds four bytes
/// for each of its pixels.
pub open spec fn well_sized(image: raster::Image) -> bool {
    &&& fits(image_width(image), image_height(image))
    &&& image_bytes(image).len() == 4 * (image_width(image) * image_height(image))
}

/// Where the four bytes of the pixel `(x, y)` start in an image of `width`
/// columns.
pub open spec fn pixel_start(width: int, x: int, y: int) -> int {
    4 * (y * width + x)
}

/// The colour held in the four bytes from `start`.
pub open spec fn pixel_at(bytes: Seq<u8>, start: int) -> Color {
    Color { r: bytes[start], g: bytes[start + 1], b: bytes[start + 2], a: bytes[start + 3] }
}

/// The bytes with the four from `start` replaced by `color`.
pub open spec fn with_pixel(bytes: Seq<u8>, start: int, color: Color) -> Seq<u8> {
    bytes.update(start, color.r).update(start + 1, color.g).update(start + 2, color.b).update(
        start + 3,
        color.a,
    )
}

/// The bytes of an image that is black and opaque all over.
pub open spec fn blank_bytes(width: int, height: int) -> Seq<u8> {
    Seq::new(
        (4 * (width * height)) as nat,
        |i: int|
            if i % 4 == 3 {
                255u8
            } else {
                0u8
            },
    )
}

/// The writes that account for what an image shows: one for each pixel, row
/// after row, of the colour that the bytes hold for it.
pub open spec fn ground(width: int, height: int, bytes: Seq<u8>) -> Seq<(int, int, Color)> {
    Seq::new((width * height) as nat, |i: int| (i % width, i / width, pixel_at(bytes, 4 * i)))
}

/// The four bytes of a pixel of the image lie within its bytes, and those of
/// two different pixels do not meet.
pub proof fn lemma_pixel_places(width: int, height: int, x: int, y: int, u: int, v: int)
    requires
        0 <= x < width,
        0 <= y < height,
        0 <= u < width,
        0 <= v < height,
    ensures
        0 <= pixel_start(width, x, y),
        pixel_start(width, x, y) + 4 <= 4 * (width * height),
        (x, y) != (u, v) ==> pixel_start(width, x, y) + 4 <= pixel_start(width, u, v)
            || pixel_start(width, u, v) + 4 <= pixel_start(width, x, y),
{
    assert(0 <= y * width && y * width + width <= width * height) by (nonlinear_arith)
        requires
            0 <= y < height,
            0 < width,
    ;
    if y < v {
        assert(y * width + width <= v * width) by (nonlinear_arith)
            requires
                y < v,
                0 < width,
        ;
    } else if v < y {
        assert(v * width + width <= y * width) by (nonlinear_arith)
            requires
                v < y,
                0 < width,
        ;
    }
}

/// What the ground of an image paints at one of its pixels is what the bytes
/// hold for that pixel.
pub proof fn lemma_ground_paints(width: int, height: int, bytes: Seq<u8>, x: int, y: int)
    requires
        0 <= x < width,
        0 <= y < height,
    ensures
        painted(ground(width, height, bytes)).dom().contains((x, y)),
        painted(ground(width, height, bytes))[(x, y)] == pixel_at(
            bytes,
            pixel_start(width, x, y),
        ),
{
    let writes = ground(width, height, bytes);
    let i = y * width + x;
    lemma_pixel_places(width, height, x, y, x, y);
    lemma_fundamental_div_mod_converse(i, width, y, x);
    assert(writes[i] == (x, y, pixel_at(bytes, pixel_start(width, x, y))));
    assert forall|j: int| i < j < writes.len() implies (#[trigger] writes[j]).0 != writes[i].0
        || writes[j].1 != writes[i].1 by {
        lemma_fundamental_div_mod(j, width);
        assert(width * (j / width) == (j / width) * width) by (nonlinear_arith);
    }
    lemma_painted_last(writes, i);
}

/// `raster::Image::blank`: a new image of the given size.
///
/// Trusted: the image has the width and height asked for, and its bytes are
/// `0, 0, 0, 255` for each pixel. The function multiplies the two sizes in
/// `i32` and four times that in `usize`, which the precondition keeps in
/// range.
#[verifier::external_body]
fn blank_image(width: i32, height: i32) -> (image: raster::Image)
    requires
        fits(width as int, height as int),
    ensures
        image_width(image) == width,
        image_height(image) == height,
        image_bytes(image) == blank_bytes(width as int, height as int),
{
    raster::Image::blank(width, height)
}

/// The fields `width` and `height` of an image, and the length of its field
/// `bytes`.
///
/// Trusted: the three values are those that the names above stand for.
#[verifier::external_body]
fn image_shape(image: &raster::Image) -> (shape: (i32, i32, usize))
    ensures
        shape.0 == image_width(*image),
        shape.1 == image_height(*image),
        shape.2 == image_bytes(*image).len(),
{
    (image.width, image.height, image.bytes.len())
}

/// `raster::Image::set_pixel`: writes one pixel of an image.
///
/// Trusted: for a position within the image the call succeeds and replaces
/// the four bytes of that pixel by the channels of the colour, and nothing
/// else changes. The function refuses a position at or beyond the width or
/// the height, computes the index of the bytes in `i32` and indexes the bytes
/// with it: the precondition leaves out the positions it refuses, negative
/// ones, and images whose bytes are not as many as their size says. On what
/// is left the function does not panic, which `no_unwind` states.
#[verifier::external_body]
fn put_pixel(image: &mut raster::Image, x: i32, y: i32, color: Color)
    requires
        well_sized(*old(image)),
        0 <= x < image_width(*old(image)),
        0 <= y < image_height(*old(image)),
    ensures
        image_width(*final(image)) == image_width(*old(image)),
        image_height(*final(image)) == image_height(*old(image)),
        image_bytes(*final(image)) == with_pixel(
            image_bytes(*old(image)),
            pixel_start(image_width(*old(image)), x as int, y as int),
            color,
        ),
    no_unwind
{
    let _ = image.set_pixel(
        x,
        y,
        raster::Color { r: color.r, g: color.g, b: color.b, a: color.a },
    );
}

/// Whether the last write of `trace` to `(x, y)` is of the colour that
/// `bytes` hold for that pixel, in an image of `width` columns.
pub open spec fn true_to(
    trace: Seq<(int, int, Color)>,
    bytes: Seq<u8>,
    width: int,
    x: int,
    y: int,
) -> bool {
    &&& painted(trace).dom().contains((x, y))
    &&& painted(trace)[(x, y)] == pixel_at(bytes, pixel_start(width, x, y))
}

/// An image together with the writes that account for what it shows.
struct Sheet {
    image: raster::Image,
    trace: Ghost<Seq<(int, int, Color)>>,
}

impl Sheet {
    /// Whether the image is `width` by `height` pixels large, holds four
    /// bytes for each of them, and shows at each the colour of the last write
    /// to it.
    spec fn holds(&self, width: int, height: int) -> bool {
        &&& well_sized(self.image)
        &&& image_width(self.image) == width
        &&& image_height(self.image) == height
        &&& forall|x: int, y: int|
            0 <= x < width && 0 <= y < height ==> #[trigger] true_to(
                self.trace@,
                image_bytes(self.image),
                width,
                x,
                y,
            )
    }

    /// The image with its ground for a trace.
    fn new(image: raster::Image) -> (sheet: Sheet)
        requires
            well_sized(image),
        ensures
            sheet.holds(image_width(image), image_height(image)),
            sheet.image == image,
            sheet.trace@ == ground(image_width(image), image_height(image), image_bytes(image)),
    {
        let ghost width = image_width(image);
        let ghost height = image_height(image);
        let sheet = Sheet {
            image,
            trace: Ghost(ground(width, height, image_bytes(image))),
        };
        proof {
            let bytes = image_bytes(sheet.image);
            assert forall|x: int, y: int|
                0 <= x < width && 0 <= y < height implies #[trigger] true_to(
                sheet.trace@,
                bytes,
                width,
                x,
                y,
            ) by {
                lemma_ground_paints(width, height, image_bytes(image), x, y);
            }
        }
        sheet
    }

    /// Takes one write: sets the pixel if the image has it, and keeps the
    /// write in either case.
    fn write(&mut self, width: i32, height: i32, x: i32, y: i32, color: Color)
        requires
            old(self).holds(width as int, height as int),
        ensures
            final(self).holds(width as int, height as int),
            final(self).trace@ == old(self).trace@.push((x as int, y as int, color)),
            image_bytes(final(self).image) == (if 0 <= x < width && 0 <= y < height {
                with_pixel(
                    image_bytes(old(self).image),
                    pixel_start(width as int, x as int, y as int),
                    color,
                )
            } else {
                image_bytes(old(self).image)
            }),
        no_unwind
    {
        let ghost before = self.trace@;
        let ghost bytes = image_bytes(self.image);
        let inside = 0 <= x && x < width && 0 <= y && y < height;
        if inside {
            proof {
                lemma_pixel_places(
                    width as int,
                    height as int,
                    x as int,
                    y as int,
                    x as int,
                    y as int,
                );
            }
            put_pixel(&mut self.image, x, y, color);
        }
        self.trace = Ghost(before.push((x as int, y as int, color)));
        proof {
            let now = self.trace@;
            let written = pixel_start(width as int, x as int, y as int);
            assert(now.drop_last() =~= before);
            assert(now.last() == (x as int, y as int, color));
            assert(painted(now) == painted(before).insert((x as int, y as int), color));
            assert forall|u: int, v: int|
                0 <= u < width && 0 <= v < height implies #[trigger] true_to(
                now,
                image_bytes(self.image),
                width as int,
                u,
                v,
            ) by {
                let place = pixel_start(width as int, u, v);
                assert(true_to(before, bytes, width as int, u, v));
                lemma_pixel_places(width as int, height as int, u, v, u, v);
                if inside {
                    lemma_pixel_places(width as int, height as int, x as int, y as int, u, v);
                    if (u, v) == (x as int, y as int) {
                        assert(pixel_at(with_pixel(bytes, written, color), written) == color);
                    } else {
                        assert(pixel_at(with_pixel(bytes, written, color), place) == pixel_at(
                            bytes,
                            place,
                        ));
                    }
                }
            }
        }
    }
}

/// A surface of fixed size, kept in a `raster::Image`. A write within its
/// columns and rows sets that pixel; a write outside of them changes nothing.
///
/// The trace of a canvas starts with its ground: one write for each pixel,
/// which accounts for what the canvas showed when it was made. At all times
/// each pixel shows the colour of the last write to it.
pub struct Canvas {
    sheet: Sheet,
    width: i32,
    height: i32,
}

impl Canvas {
    /// What holds of every canvas: see `lemma_canvas_shows`.
    #[verifier::type_invariant]
    pub closed spec fn well_formed(&self) -> bool {
        self.sheet.holds(self.width as int, self.height as int)
    }

    /// The number of columns.
    pub closed spec fn width(&self) -> int {
        self.width as int
    }

    /// The number of rows.
    pub closed spec fn height(&self) -> int {
        self.height as int
    }

    /// The bytes of the image: four for each pixel, red, green, blue and
    /// alpha, row after row.
    pub closed spec fn bytes(&self) -> Seq<u8> {
        image_bytes(self.sheet.image)
    }

    /// The colour of the pixel at `(x, y)`, for a pixel of the canvas.
    pub open spec fn shown(&self, x: int, y: int) -> Color {
        pixel_at(self.bytes(), pixel_start(self.width(), x, y))
    }

    /// Whether the pixel at `(x, y)` shows the colour of the last write to
    /// it.
    pub open spec fn shows_last(&self, x: int, y: int) -> bool {
        true_to(self.trace(), self.bytes(), self.width(), x, y)
    }

    /// A canvas of the given size, black and opaque all over, or `None`
    /// where no image of that size can be worked on.
    pub fn blank(width: i32, height: i32) -> (canvas: Option<Canvas>)
        ensures
            canvas is Some <==> fits(width as int, height as int),
            canvas matches Some(c) ==> {
                &&& c.well_formed()
                &&& c.width() == width
                &&& c.height() == height
                &&& c.bytes() == blank_bytes(width as int, height as int)
                &&& c.trace() == ground(width as int, height as int, c.bytes())
            },
    {
        if width < 0 || height < 0 {
            return None;
        }
        assert(0 <= width * height <= 0x8000_0000 * 0x8000_0000) by (nonlinear_arith)
            requires
                0 <= width <= 0x8000_0000,
                0 <= height <= 0x8000_0000,
        ;
        let pixels: i64 = width as i64 * height as i64;
        if pixels > 0x1fff_ffff {
            return None;
        }
        let image = blank_image(width, height);
        let sheet = Sheet::new(image);
        Some(Canvas { sheet, width, height })
    }

    /// A canvas that shows the given image, or the image handed back where
    /// it cannot be worked on.
    pub fn from_image(image: raster::Image) -> (canvas: Result<Canvas, raster::Image>)
        ensures
            canvas is Ok <==> well_sized(image),
            canvas matches Ok(c) ==> {
                &&& c.well_formed()
                &&& c.width() == image_width(image)
                &&& c.height() == image_height(image)
                &&& c.bytes() == image_bytes(image)
                &&& c.trace() == ground(c.width(), c.height(), c.bytes())
            },
            canvas matches Err(back) ==> back == image,
    {
        let (width, height, len) = image_shape(&image);
        if width < 0 || height < 0 {
            return Err(image);
        }
        assert(0 <= width * height <= 0x8000_0000 * 0x8000_0000) by (nonlinear_arith)
            requires
                0 <= width <= 0x8000_0000,
                0 <= height <= 0x8000_0000,
        ;
        let pixels: i64 = width as i64 * height as i64;
        if pixels > 0x1fff_ffff {
            return Err(image);
        }
        if len as u64 != 4 * (pixels as u64) {
            return Err(image);
        }
        let sheet = Sheet::new(image);
        Ok(Canvas { sheet, width, height })
    }

    /// The image of the canvas.
    pub fn into_image(self) -> (image: raster::Image)
        ensures
            image_width(image) == self.width(),
            image_height(image) == self.height(),
            image_bytes(image) == self.bytes(),
    {
        proof {
            use_type_invariant(&self);
        }
        self.sheet.image
    }
}

impl Displayable for Canvas {
    closed spec fn trace(&self) -> Seq<(int, int, Color)> {
        self.sheet.trace@
    }

    open spec fn covers(&self, x: int, y: int) -> bool {
        0 <= x < self.width() && 0 <= y < self.height()
    }

    fn display(&mut self, x: i32, y: i32, color: Color)
        ensures
            final(self).width() == old(self).width(),
            final(self).height() == old(self).height(),
            final(self).bytes() == (if old(self).covers(x as int, y as int) {
                with_pixel(
                    old(self).bytes(),
                    pixel_start(old(self).width(), x as int, y as int),
                    color,
                )
            } else {
                old(self).bytes()
            }),
    {
        proof {
            use_type_invariant(&*self);
        }
        self.sheet.write(self.width, self.height, x, y, color);
    }
}

/// A canvas is of a size that fits, holds four bytes for each pixel, and
/// shows at each pixel the colour of the last write to it.
pub proof fn lemma_canvas_shows(canvas: Canvas)
    requires
        canvas.well_formed(),
    ensures
        fits(canvas.width(), canvas.height()),
        canvas.bytes().len() == 4 * (canvas.width() * canvas.height()),
        forall|x: int, y: int| canvas.covers(x, y) ==> #[trigger] canvas.shows_last(x, y),
{
}

/// Which pixels a canvas has tells its size, unless it has none.
pub proof fn lemma_canvas_size(one: Canvas, other: Canvas)
    requires
        one.well_formed(),
        other.well_formed(),
        same_pixels(one, other),
        one.width() > 0,
        one.height() > 0,
    ensures
        one.width() == other.width(),
        one.height() == other.height(),
{
    lemma_canvas_shows(one);
    lemma_canvas_shows(other);
    assert(one.covers(one.width() - 1, one.height() - 1));
    assert(other.covers(one.width() - 1, one.height() - 1));
    assert(!one.covers(one.width(), 0));
    assert(!other.covers(one.width(), 0));
    assert(!one.covers(0, one.height()));
    assert(!other.covers(0, one.height()));
}

/// Two canvases of one size show the same, byte for byte, where their traces
/// paint the same.
pub proof fn lemma_canvases_alike(one: Canvas, other: Canvas)
    requires
        one.well_formed(),
        other.well_formed(),
        one.width() == other.width(),
        one.height() == other.height(),
        painted(one.trace()) == painted(other.trace()),
    ensures
        one.bytes() == other.bytes(),
{
    let width = one.width();
    let height = one.height();
    lemma_canvas_shows(one);
    lemma_canvas_shows(other);
    assert forall|i: int| 0 <= i < one.bytes().len() implies one.bytes()[i] == other.bytes()[i] by {
        let pixel = i / 4;
        let channel = i % 4;
        let y = pixel / width;
        let x = pixel % width;
        assert(0 <= pixel < width * height && i == 4 * pixel + channel);
        assert(width > 0) by (nonlinear_arith)
            requires
                0 <= pixel < width * height,
                0 <= width,
        ;
        lemma_fundamental_div_mod(pixel, width);
        lemma_mod_bound(pixel, width);
        assert(pixel == y * width + x) by (nonlinear_arith)
            requires
                pixel == width * y + x,
        ;
        assert(0 <= y < height) by (nonlinear_arith)
            requires
                0 <= y * width + x < width * height,
                0 <= x < width,
        ;
        assert(one.covers(x, y) && other.covers(x, y));
        assert(one.shows_last(x, y) && other.shows_last(x, y));
        assert(one.shown(x, y) == other.shown(x, y));
        assert(pixel_start(width, x, y) == 4 * pixel);
    }
    assert(one.bytes() =~= other.bytes());
}

} // verus!
