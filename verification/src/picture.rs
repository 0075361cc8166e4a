//! The frame: a picture of fixed size, kept in a buffer of the `image` crate.

use vstd::prelude::*;
use crate::color::RgbColor;
use crate::color::black;

verus! {

/// An 8-bit RGB picture buffer of the `image` crate, as `ImageBuffer::new`
/// makes it.
///
/// The buffer's type is bounded by a trait of the `image` crate and cannot be
/// declared to the verifier, so the buffer is kept in this struct, of which
/// the verifier sees nothing. What the functions below state of it is taken
/// from the crate's source and is believed, not proved.
#[verifier::external_body]
#[derive(Debug)]
pub struct Canvas {
    buffer: image::RgbImage,
}

/// The width and the height of a buffer.
pub uninterp spec fn canvas_dimensions(canvas: Canvas) -> (nat, nat);

/// The three samples of each pixel of a buffer, by column and row.
pub uninterp spec fn canvas_pixels(canvas: Canvas) -> Map<(int, int), (u8, u8, u8)>;

/// `ImageBuffer::new`: a buffer of the given size in which every sample is
/// zero. The call multiplies 3 by the width and then by the height, and
/// panics where either product overflows `usize` or the length in bytes is
/// more than a vector can hold. The precondition excludes all three.
#[verifier::external_body]
fn canvas_new(width: u32, height: u32) -> (canvas: Canvas)
    requires
        3 * width <= usize::MAX,
        3 * width * height <= isize::MAX,
    ensures
        canvas_dimensions(canvas) == (width as nat, height as nat),
        forall|x: int, y: int|
            0 <= x < width && 0 <= y < height ==> #[trigger] canvas_pixels(canvas)[(x, y)] == (
                0u8,
                0u8,
                0u8,
            ),
{
    Canvas { buffer: image::ImageBuffer::new(width, height) }
}

/// `ImageBuffer::put_pixel`: the pixel at `(x, y)` takes the three samples;
/// every other pixel and the size stay. The call panics outside the bounds,
/// which the precondition excludes.
#[verifier::external_body]
fn canvas_put_pixel(canvas: &mut Canvas, x: u32, y: u32, samples: (u8, u8, u8))
    requires
        x < canvas_dimensions(*old(canvas)).0,
        y < canvas_dimensions(*old(canvas)).1,
    ensures
        canvas_dimensions(*final(canvas)) == canvas_dimensions(*old(canvas)),
        canvas_pixels(*final(canvas)) == canvas_pixels(*old(canvas)).insert(
            (x as int, y as int),
            samples,
        ),
{
    canvas.buffer.put_pixel(x, y, image::Rgb([samples.0, samples.1, samples.2]))
}

/// `ImageBuffer::get_pixel`: the three samples of the pixel at `(x, y)`. The
/// call panics outside the bounds, which the precondition excludes.
#[verifier::external_body]
fn canvas_get_pixel(canvas: &Canvas, x: u32, y: u32) -> (samples: (u8, u8, u8))
    requires
        x < canvas_dimensions(*canvas).0,
        y < canvas_dimensions(*canvas).1,
    ensures
        samples == canvas_pixels(*canvas)[(x as int, y as int)],
{
    let pixel = canvas.buffer.get_pixel(x, y);
    (pixel.0[0], pixel.0[1], pixel.0[2])
}

/// `ImageBuffer::dimensions`: the width and the height of the buffer.
#[verifier::external_body]
fn canvas_size(canvas: &Canvas) -> (size: (u32, u32))
    ensures
        (size.0 as nat, size.1 as nat) == canvas_dimensions(*canvas),
{
    canvas.buffer.dimensions()
}

/// `ImageBuffer::into_raw`: the samples of the buffer, row after row, three
/// to a pixel. A buffer that `ImageBuffer::new` made holds its pixels and
/// nothing more.
#[verifier::external_body]
fn canvas_into_raw(canvas: Canvas) -> (raw: Vec<u8>)
    ensures
        raw@.len() == 3 * canvas_dimensions(canvas).0 * canvas_dimensions(canvas).1,
        forall|x: int, y: int|
            0 <= x < canvas_dimensions(canvas).0 && 0 <= y < canvas_dimensions(canvas).1 ==> (
            #[trigger] canvas_pixels(canvas)[(x, y)]) == (
                raw@[3 * (y * canvas_dimensions(canvas).0 + x)],
                raw@[3 * (y * canvas_dimensions(canvas).0 + x) + 1],
                raw@[3 * (y * canvas_dimensions(canvas).0 + x) + 2],
            ),
{
    canvas.buffer.into_raw()
}

/// The samples that stand for a colour in the buffer: blue first, red last.
pub open spec fn packed(color: RgbColor) -> (u8, u8, u8) {
    (color.b, color.g, color.r)
}

/// The colour that three samples of the buffer stand for.
pub open spec fn unpacked(samples: (u8, u8, u8)) -> RgbColor {
    RgbColor { r: samples.2, g: samples.1, b: samples.0 }
}

/// What a frame is: its size and the colour of each of its pixels.
pub struct FrameView {
    pub width: nat,
    pub height: nat,
    /// The colour of the pixel in column `x` and row `y`, under the key
    /// `(x, y)`. The keys are the positions inside the frame.
    pub pixels: Map<(int, int), RgbColor>,
}

impl FrameView {
    /// Whether `(x, y)` is a position inside the frame.
    pub open spec fn holds(self, x: int, y: int) -> bool {
        0 <= x < self.width && 0 <= y < self.height
    }

    /// The frame with the pixel at `(x, y)` set to `color`.
    pub open spec fn put(self, x: int, y: int, color: RgbColor) -> FrameView {
        FrameView { pixels: self.pixels.insert((x, y), color), ..self }
    }
}

/// The frame of the given size in which every pixel is black.
pub open spec fn blank(width: nat, height: nat) -> FrameView {
    FrameView {
        width,
        height,
        pixels: Map::new(
            |p: (int, int)| 0 <= p.0 < width && 0 <= p.1 < height,
            |p: (int, int)| black(),
        ),
    }
}

/// Whether a picture of this size fits in memory: the three bytes a pixel
/// of one row must be a length at all, and those of all rows must not be more
/// than a vector can hold.
pub open spec fn fits(width: nat, height: nat) -> bool {
    3 * width <= usize::MAX && 3 * width * height <= isize::MAX
}

/// A picture of fixed size.
#[derive(Debug)]
pub struct Frame {
    canvas: Canvas,
}

impl View for Frame {
    type V = FrameView;

    closed spec fn view(&self) -> FrameView {
        let size = canvas_dimensions(self.canvas);
        FrameView {
            width: size.0,
            height: size.1,
            pixels: Map::new(
                |p: (int, int)| 0 <= p.0 < size.0 && 0 <= p.1 < size.1,
                |p: (int, int)| unpacked(canvas_pixels(self.canvas)[p]),
            ),
        }
    }
}

impl Frame {
    /// A black frame of the given size, or `None` where a picture of this
    /// size does not fit in memory.
    pub fn new(width: u32, height: u32) -> (frame: Option<Frame>)
        ensures
            fits(width as nat, height as nat) <==> frame is Some,
            frame matches Some(f) ==> f@ == blank(width as nat, height as nat),
    {
        assert(width * height <= 0xffff_ffff * 0xffff_ffff) by (nonlinear_arith)
            requires
                width <= 0xffff_ffff,
                height <= 0xffff_ffff,
        ;
        let area: u64 = (width as u64) * (height as u64);
        let bytes: u128 = 3 * (area as u128);
        assert(bytes == 3 * width * height) by (nonlinear_arith)
            requires
                bytes == 3 * area,
                area == width * height,
        ;
        if 3 * (width as u128) > usize::MAX as u128 || bytes > isize::MAX as u128 {
            return None;
        }
        let frame = Frame { canvas: canvas_new(width, height) };
        assert(frame@.pixels =~= blank(width as nat, height as nat).pixels);
        Some(frame)
    }

    /// The number of columns.
    pub fn width(&self) -> (width: u32)
        ensures
            width == self@.width,
    {
        canvas_size(&self.canvas).0
    }

    /// The number of rows.
    pub fn height(&self) -> (height: u32)
        ensures
            height == self@.height,
    {
        canvas_size(&self.canvas).1
    }

    /// Sets the pixel in column `x` and row `y`.
    pub fn put_pixel(&mut self, x: u32, y: u32, color: RgbColor)
        requires
            old(self)@.holds(x as int, y as int),
        ensures
            final(self)@ == old(self)@.put(x as int, y as int, color),
    {
        canvas_put_pixel(&mut self.canvas, x, y, (color.b, color.g, color.r));
        assert(self@.pixels =~= old(self)@.put(x as int, y as int, color).pixels);
    }

    /// The pixel in column `x` and row `y`.
    pub fn get_pixel(&self, x: u32, y: u32) -> (color: RgbColor)
        requires
            self@.holds(x as int, y as int),
        ensures
            color == self@.pixels[(x as int, y as int)],
    {
        let samples = canvas_get_pixel(&self.canvas, x, y);
        RgbColor { r: samples.2, g: samples.1, b: samples.0 }
    }

    /// The frame as bytes for an RGB picture of 8 bits a channel: row after
    /// row, three bytes to a pixel, which hold its blue, green and red
    /// channel in this order.
    pub fn into_raw(self) -> (raw: Vec<u8>)
        ensures
            raw@.len() == 3 * self@.width * self@.height,
            forall|x: int, y: int|
                self@.holds(x, y) ==> packed(#[trigger] self@.pixels[(x, y)]) == (
                    raw@[3 * (y * self@.width + x)],
                    raw@[3 * (y * self@.width + x) + 1],
                    raw@[3 * (y * self@.width + x) + 2],
                ),
    {
        let ghost pixels = canvas_pixels(self.canvas);
        let raw = canvas_into_raw(self.canvas);
        assert forall|x: int, y: int| self@.holds(x, y) implies packed(
            #[trigger] self@.pixels[(x, y)],
        ) == (
            raw@[3 * (y * self@.width + x)],
            raw@[3 * (y * self@.width + x) + 1],
            raw@[3 * (y * self@.width + x) + 2],
        ) by {
            assert(packed(unpacked(pixels[(x, y)])) == pixels[(x, y)]);
        }
        raw
    }
}

} // verus!
