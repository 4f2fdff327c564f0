//! Painting strokes and the boxes that stand for text onto an RGB pixel buffer.
//!
//! A [`Canvas`] wraps a pixel buffer of the `image` crate. Everything drawn on it is
//! described pixel by pixel: a contract says, for every coordinate, which colour it
//! holds afterwards.

use crate::line::distance;
use crate::line::error_term;
use crate::line::lemma_progress_ends;
use crate::line::lemma_progress_major;
use crate::line::lemma_progress_range;
use crate::line::lemma_walk_step;
use crate::line::line_point;
use crate::line::progress;
use crate::line::step_count;
use crate::line::toward;
use image::ImageBuffer;
use image::Rgb;
use vstd::prelude::*;

verus! {

/// An opaque colour with eight bits for each of red, green and blue.
#[derive(Clone, Copy, Debug, PartialEq, Eq, Structural)]
pub struct Color {
    pub r: u8,
    pub g: u8,
    pub b: u8,
}

/// The light grey that an empty page shows.
pub open spec fn paper() -> Color {
    Color { r: 245, g: 245, b: 245 }
}

/// The black that stands for text.
pub open spec fn ink() -> Color {
    Color { r: 0, g: 0, b: 0 }
}

/// A stroke: the points it runs through, its colour and its width in pixels.
pub struct Polyline {
    pub points: Vec<(i32, i32)>,
    pub color: Color,
    pub width: u32,
}

/// The rectangle that a line of text takes up, in pixel coordinates.
#[derive(Clone, Copy, Debug, PartialEq, Eq, Structural)]
pub struct TextBox {
    pub x: i32,
    pub y: i32,
    pub width: i32,
    pub height: i32,
}

/// A pixel buffer of the `image` crate, eight bits for each of red, green and blue.
#[verifier::external_body]
pub struct Canvas {
    buffer: ImageBuffer<Rgb<u8>, Vec<u8>>,
}

/// Width and height, in pixels, that a canvas was made with.
pub uninterp spec fn canvas_size(canvas: Canvas) -> (u32, u32);

/// The colour that a canvas holds at each of its coordinates.
pub uninterp spec fn canvas_pixels(canvas: Canvas) -> Map<(int, int), Color>;

/// The colour of the pixel at `(px, py)`.
#[verifier::inline]
pub open spec fn pixel_at(canvas: Canvas, px: int, py: int) -> Color {
    canvas_pixels(canvas)[(px, py)]
}

/// Whether `(px, py)` is a pixel of a canvas of the given size.
pub open spec fn on_canvas(size: (u32, u32), px: int, py: int) -> bool {
    0 <= px < size.0 && 0 <= py < size.1
}

/// An unsigned length read as the signed 32-bit number with the same bits.
pub open spec fn signed(v: u32) -> int {
    if v <= i32::MAX {
        v as int
    } else {
        v - 0x1_0000_0000
    }
}

/// Whether drawing reaches `(px, py)`. Drawing measures the canvas with signed 32-bit
/// numbers, so it reaches no pixel of a side longer than `i32::MAX`.
pub open spec fn drawable(size: (u32, u32), px: int, py: int) -> bool {
    0 <= px < signed(size.0) && 0 <= py < signed(size.1)
}

/// The radius of the round brush that draws a stroke of the given width: half the width,
/// rounded towards zero, the width read as a signed number.
pub open spec fn brush_radius(width: u32) -> int {
    let w = signed(width);
    if w >= 0 {
        w / 2
    } else {
        -((-w) / 2)
    }
}

/// Whether a brush of radius `r` centred on `(cx, cy)` touches `(px, py)`.
pub open spec fn in_brush(cx: int, cy: int, r: int, px: int, py: int) -> bool {
    r >= 0 && (px - cx) * (px - cx) + (py - cy) * (py - cy) <= r * r
}

/// Whether the brush, set down after `k` steps of the line from `(x0, y0)` to `(x1, y1)`,
/// touches `(px, py)`.
pub open spec fn stamp_hits(x0: int, y0: int, x1: int, y1: int, r: int, k: int, px: int, py: int) -> bool {
    let c = line_point(x0, y0, x1, y1, k);
    in_brush(c.0, c.1, r, px, py)
}

/// Whether the brush touches `(px, py)` during the first `m` points of a line.
pub open spec fn covered_before(x0: int, y0: int, x1: int, y1: int, r: int, m: int, px: int, py: int) -> bool {
    exists|k: int| 0 <= k < m && #[trigger] stamp_hits(x0, y0, x1, y1, r, k, px, py)
}

/// Whether a line of the given width from `(x0, y0)` to `(x1, y1)` covers `(px, py)`:
/// the brush touches it at one of the line's points.
pub open spec fn segment_covers(x0: int, y0: int, x1: int, y1: int, width: u32, px: int, py: int) -> bool {
    covered_before(x0, y0, x1, y1, brush_radius(width), step_count(x0, y0, x1, y1) + 1, px, py)
}

/// Whether the leg of a stroke that starts at its point `i` covers `(px, py)`.
pub open spec fn leg_covers(line: Polyline, i: int, px: int, py: int) -> bool {
    segment_covers(
        line.points@[i].0 as int,
        line.points@[i].1 as int,
        line.points@[i + 1].0 as int,
        line.points@[i + 1].1 as int,
        line.width,
        px,
        py,
    )
}

/// Whether one of the first `m` legs of a stroke covers `(px, py)`.
pub open spec fn legs_cover(line: Polyline, m: int, px: int, py: int) -> bool {
    exists|i: int| 0 <= i < m && #[trigger] leg_covers(line, i, px, py)
}

/// Whether a stroke covers `(px, py)`. A stroke of fewer than two points covers nothing.
pub open spec fn polyline_covers(line: Polyline, px: int, py: int) -> bool {
    legs_cover(line, line.points@.len() - 1, px, py)
}

/// The colour at `(px, py)` once the strokes are drawn, in their order, over `base`:
/// that of the last stroke that covers the pixel.
pub open spec fn strokes_color(strokes: Seq<Polyline>, base: Color, px: int, py: int) -> Color
    decreases strokes.len(),
{
    if strokes.len() == 0 {
        base
    } else if polyline_covers(strokes.last(), px, py) {
        strokes.last().color
    } else {
        strokes_color(strokes.drop_last(), base, px, py)
    }
}

/// Whether the hatching of a text box marks `(px, py)`: every fourth pixel of each row,
/// shifted by one from row to row.
pub open spec fn box_hatches(area: TextBox, px: int, py: int) -> bool {
    &&& area.x <= px < area.x + area.width
    &&& area.y <= py < area.y + area.height
    &&& (px + py) % 4 == 0
}

/// Whether the hatching of one of the first `m` text boxes marks `(px, py)`.
pub open spec fn boxes_hatch(boxes: Seq<TextBox>, m: int, px: int, py: int) -> bool {
    exists|j: int| 0 <= j < m && #[trigger] box_hatches(boxes[j], px, py)
}

/// The colour of pixel `(px, py)` on the picture of a page: hatching where a text box
/// lies, else the last stroke that covers the pixel, else paper.
pub open spec fn page_pixel(strokes: Seq<Polyline>, boxes: Seq<TextBox>, size: (u32, u32), px: int, py: int) -> Color {
    if !drawable(size, px, py) {
        paper()
    } else if boxes_hatch(boxes, boxes.len() as int, px, py) {
        ink()
    } else {
        strokes_color(strokes, paper(), px, py)
    }
}

/// Whether the three samples of pixel `(px, py)`, in a row-after-row sample sequence of
/// an image `width` pixels wide, spell out `color`.
pub open spec fn samples_hold(samples: Seq<u8>, width: u32, px: int, py: int, color: Color) -> bool {
    let at = 3 * (py * width + px);
    &&& 0 <= at
    &&& at + 2 < samples.len()
    &&& color.r == samples[at]
    &&& color.g == samples[at + 1]
    &&& color.b == samples[at + 2]
}

/// `ImageBuffer::new`: a buffer of the given size whose samples are all zero. The
/// outside function panics where the samples do not fit into a vector.
#[verifier::external_body]
fn blank_canvas(width: u32, height: u32) -> (canvas: Canvas)
    requires
        3 * width * height <= isize::MAX,
    ensures
        canvas_size(canvas) == (width, height),
        forall|px: int, py: int|
            on_canvas((width, height), px, py) ==> #[trigger] pixel_at(canvas, px, py) == ink(),
{
    Canvas { buffer: ImageBuffer::new(width, height) }
}

/// `ImageBuffer::dimensions`: the width and height that the buffer was made with.
#[verifier::external_body]
fn dimensions(canvas: &Canvas) -> (size: (u32, u32))
    ensures
        size == canvas_size(*canvas),
{
    canvas.buffer.dimensions()
}

/// `ImageBuffer::get_pixel`: the colour stored at `(x, y)`. The outside function panics
/// outside the bounds.
#[verifier::external_body]
fn get_pixel(canvas: &Canvas, x: u32, y: u32) -> (color: Color)
    requires
        on_canvas(canvas_size(*canvas), x as int, y as int),
    ensures
        color == pixel_at(*canvas, x as int, y as int),
{
    let Rgb([r, g, b]) = *canvas.buffer.get_pixel(x, y);
    Color { r, g, b }
}

/// `ImageBuffer::put_pixel`: stores `color` at `(x, y)` and leaves every other pixel and
/// the size as they were. The outside function panics outside the bounds.
#[verifier::external_body]
fn put_pixel(canvas: &mut Canvas, x: u32, y: u32, color: Color)
    requires
        on_canvas(canvas_size(*old(canvas)), x as int, y as int),
    ensures
        canvas_size(*final(canvas)) == canvas_size(*old(canvas)),
        canvas_pixels(*final(canvas)) == canvas_pixels(*old(canvas)).insert((x as int, y as int), color),
{
    canvas.buffer.put_pixel(x, y, Rgb([color.r, color.g, color.b]));
}

/// `ImageBuffer::into_raw`: the samples of the buffer, row after row from the top, three
/// for each pixel: red, green, blue.
#[verifier::external_body]
fn raw_samples(canvas: Canvas) -> (samples: Vec<u8>)
    ensures
        samples@.len() == 3 * canvas_size(canvas).0 * canvas_size(canvas).1,
        forall|px: int, py: int|
            on_canvas(canvas_size(canvas), px, py) ==> samples_hold(
                samples@,
                canvas_size(canvas).0,
                px,
                py,
                #[trigger] pixel_at(canvas, px, py),
            ),
{
    canvas.buffer.into_raw()
}

/// A brush touches only pixels that lie within its radius on either axis.
proof fn lemma_brush_extent(cx: int, cy: int, r: int, px: int, py: int)
    requires
        in_brush(cx, cy, r, px, py),
    ensures
        -r <= px - cx <= r,
        -r <= py - cy <= r,
{
    let a = px - cx;
    let b = py - cy;
    assert(-r <= a <= r && -r <= b <= r) by (nonlinear_arith)
        requires
            r >= 0,
            a * a + b * b <= r * r,
    ;
}

/// The signed reading of a length, as a number to compute with.
fn signed_of(v: u32) -> (s: i64)
    ensures
        s == signed(v),
{
    if v <= 0x7fff_ffff {
        v as i64
    } else {
        v as i64 - 0x1_0000_0000
    }
}

/// The brush radius for a stroke width, as a number to compute with.
fn radius_of(width: u32) -> (r: i64)
    ensures
        r == brush_radius(width),
        -0x4000_0000 <= r <= 0x3fff_ffff,
{
    let w = signed_of(width);
    if w >= 0 {
        w / 2
    } else {
        -((-w) / 2)
    }
}

impl Canvas {
    /// The width of the canvas in pixels.
    pub fn width(&self) -> (w: u32)
        ensures
            w == canvas_size(*self).0,
    {
        dimensions(self).0
    }

    /// The height of the canvas in pixels.
    pub fn height(&self) -> (h: u32)
        ensures
            h == canvas_size(*self).1,
    {
        dimensions(self).1
    }

    /// The colour at `(x, y)`, or `None` where the canvas has no such pixel.
    pub fn pixel(&self, x: u32, y: u32) -> (color: Option<Color>)
        ensures
            color == (if on_canvas(canvas_size(*self), x as int, y as int) {
                Some(pixel_at(*self, x as int, y as int))
            } else {
                None
            }),
    {
        let (w, h) = dimensions(self);
        if x < w && y < h {
            Some(get_pixel(self, x, y))
        } else {
            None
        }
    }

    /// Paints every pixel of the canvas in one colour.
    pub fn fill(&mut self, color: Color)
        ensures
            canvas_size(*final(self)) == canvas_size(*old(self)),
            forall|px: int, py: int|
                #[trigger] pixel_at(*final(self), px, py) == (if on_canvas(canvas_size(*old(self)), px, py) {
                    color
                } else {
                    pixel_at(*old(self), px, py)
                }),
    {
        let (w, h) = dimensions(self);
        let mut y: u32 = 0;
        while y < h
            invariant
                y <= h,
                canvas_size(*self) == canvas_size(*old(self)),
                canvas_size(*self) == (w, h),
                forall|px: int, py: int|
                    #[trigger] pixel_at(*self, px, py) == (if on_canvas((w, h), px, py) && py < y {
                        color
                    } else {
                        pixel_at(*old(self), px, py)
                    }),
            decreases h - y,
        {
            let mut x: u32 = 0;
            while x < w
                invariant
                    x <= w,
                    y < h,
                    canvas_size(*self) == canvas_size(*old(self)),
                    canvas_size(*self) == (w, h),
                    forall|px: int, py: int|
                        #[trigger] pixel_at(*self, px, py) == (if on_canvas((w, h), px, py) && (py < y || (py
                            == y && px < x)) {
                            color
                        } else {
                            pixel_at(*old(self), px, py)
                        }),
                decreases w - x,
            {
                put_pixel(self, x, y, color);
                x = x + 1;
            }
            y = y + 1;
        }
    }

    /// A canvas of the given size, painted in one colour.
    pub fn new(width: u32, height: u32, background: Color) -> (canvas: Canvas)
        requires
            3 * width * height <= isize::MAX,
        ensures
            canvas_size(canvas) == (width, height),
            forall|px: int, py: int|
                on_canvas((width, height), px, py) ==> #[trigger] pixel_at(canvas, px, py) == background,
    {
        let mut canvas = blank_canvas(width, height);
        canvas.fill(background);
        canvas
    }

    /// The samples of the canvas, row after row from the top, three for each pixel: red,
    /// green, blue.
    pub fn into_bytes(self) -> (samples: Vec<u8>)
        ensures
            samples@.len() == 3 * canvas_size(self).0 * canvas_size(self).1,
            forall|px: int, py: int|
                on_canvas(canvas_size(self), px, py) ==> samples_hold(
                    samples@,
                    canvas_size(self).0,
                    px,
                    py,
                    #[trigger] pixel_at(self, px, py),
                ),
    {
        raw_samples(self)
    }

    /// Sets the round brush of radius `r` down on `(cx, cy)`: paints every pixel that it
    /// touches and that drawing reaches.
    fn stamp(&mut self, cx: i64, cy: i64, r: i64, color: Color)
        requires
            i32::MIN <= cx <= i32::MAX,
            i32::MIN <= cy <= i32::MAX,
            -0x4000_0000 <= r <= 0x3fff_ffff,
        ensures
            canvas_size(*final(self)) == canvas_size(*old(self)),
            forall|px: int, py: int|
                #[trigger] pixel_at(*final(self), px, py) == (if drawable(canvas_size(*old(self)), px, py)
                    && in_brush(cx as int, cy as int, r as int, px, py) {
                    color
                } else {
                    pixel_at(*old(self), px, py)
                }),
    {
        if r < 0 {
            return ;
        }
        let (cw, ch) = dimensions(self);
        let w = signed_of(cw);
        let h = signed_of(ch);
        let ghost size = canvas_size(*self);
        proof {
            assert forall|px: int, py: int| in_brush(cx as int, cy as int, r as int, px, py) implies -r <= px
                - cx <= r && -r <= py - cy <= r by {
                lemma_brush_extent(cx as int, cy as int, r as int, px, py);
            }
        }
        let left: i64 = if cx - r > 0 { cx - r } else { 0 };
        let top: i64 = if cy - r > 0 { cy - r } else { 0 };
        let right: i64 = if cx + r < w { cx + r + 1 } else { w };
        let bottom: i64 = if cy + r < h { cy + r + 1 } else { h };
        let mut x: i64 = left;
        while x < right
            invariant
                0 <= r <= 0x3fff_ffff,
                i32::MIN <= cx <= i32::MAX,
                i32::MIN <= cy <= i32::MAX,
                left <= x,
                left == (if cx - r > 0 { cx - r } else { 0 }),
                top == (if cy - r > 0 { cy - r } else { 0 }),
                right == (if cx + r < w { cx + r + 1 } else { w as int }),
                bottom == (if cy + r < h { cy + r + 1 } else { h as int }),
                size == canvas_size(*old(self)),
                canvas_size(*self) == size,
                w == signed(size.0),
                h == signed(size.1),
                forall|px: int, py: int|
                    in_brush(cx as int, cy as int, r as int, px, py) ==> -r <= px - cx <= r && -r <= py - cy
                        <= r,
                forall|px: int, py: int|
                    #[trigger] pixel_at(*self, px, py) == (if drawable(size, px, py) && in_brush(
                        cx as int,
                        cy as int,
                        r as int,
                        px,
                        py,
                    ) && px < x {
                        color
                    } else {
                        pixel_at(*old(self), px, py)
                    }),
            decreases right - x,
        {
            let mut y: i64 = top;
            while y < bottom
                invariant
                    0 <= r <= 0x3fff_ffff,
                    i32::MIN <= cx <= i32::MAX,
                    i32::MIN <= cy <= i32::MAX,
                    left <= x < right,
                    top <= y,
                    left == (if cx - r > 0 { cx - r } else { 0 }),
                    top == (if cy - r > 0 { cy - r } else { 0 }),
                    right == (if cx + r < w { cx + r + 1 } else { w as int }),
                    bottom == (if cy + r < h { cy + r + 1 } else { h as int }),
                    size == canvas_size(*old(self)),
                    canvas_size(*self) == size,
                    w == signed(size.0),
                    h == signed(size.1),
                    forall|px: int, py: int|
                        in_brush(cx as int, cy as int, r as int, px, py) ==> -r <= px - cx <= r && -r <= py
                            - cy <= r,
                    forall|px: int, py: int|
                        #[trigger] pixel_at(*self, px, py) == (if drawable(size, px, py) && in_brush(
                            cx as int,
                            cy as int,
                            r as int,
                            px,
                            py,
                        ) && (px < x || (px == x && py < y)) {
                            color
                        } else {
                            pixel_at(*old(self), px, py)
                        }),
                decreases bottom - y,
            {
                let ox = x - cx;
                let oy = y - cy;
                assert(ox * ox <= 0x1000_0000_0000_0000 && oy * oy <= 0x1000_0000_0000_0000 && r * r
                    <= 0x1000_0000_0000_0000 && ox * ox >= 0 && oy * oy >= 0) by (nonlinear_arith)
                    requires
                        -0x4000_0000 <= ox <= 0x4000_0000,
                        -0x4000_0000 <= oy <= 0x4000_0000,
                        -0x4000_0000 <= r <= 0x4000_0000,
                ;
                if ox * ox + oy * oy <= r * r {
                    put_pixel(self, x as u32, y as u32, color);
                }
                y = y + 1;
            }
            x = x + 1;
        }
    }

    /// Draws the line from `(x0, y0)` to `(x1, y1)` with a round brush: sets the brush
    /// down on every point of the line. Pixels that the brush does not touch, or that
    /// drawing does not reach, keep their colour.
    pub fn draw_line(&mut self, x0: i32, y0: i32, x1: i32, y1: i32, color: Color, width: u32)
        ensures
            canvas_size(*final(self)) == canvas_size(*old(self)),
            forall|px: int, py: int|
                #[trigger] pixel_at(*final(self), px, py) == (if drawable(canvas_size(*old(self)), px, py)
                    && segment_covers(x0 as int, y0 as int, x1 as int, y1 as int, width, px, py) {
                    color
                } else {
                    pixel_at(*old(self), px, py)
                }),
    {
        let r = radius_of(width);
        let dx: i64 = if x0 <= x1 { x1 as i64 - x0 as i64 } else { x0 as i64 - x1 as i64 };
        let dy: i64 = if y0 <= y1 { y1 as i64 - y0 as i64 } else { y0 as i64 - y1 as i64 };
        let sx: i64 = if x0 < x1 { 1 } else { -1 };
        let sy: i64 = if y0 < y1 { 1 } else { -1 };
        let ghost n: int = step_count(x0 as int, y0 as int, x1 as int, y1 as int);
        let ghost size = canvas_size(*self);
        let mut err: i64 = dx - dy;
        let mut x: i64 = x0 as i64;
        let mut y: i64 = y0 as i64;
        let ghost mut k: int = 0;
        proof {
            if n > 0 {
                lemma_progress_ends(dx as int, n);
                lemma_progress_ends(dy as int, n);
            }
            assert(dx * 0 == 0 && dy * 0 == 0);
        }
        self.stamp(x, y, r, color);
        proof {
            assert forall|px: int, py: int|
                covered_before(x0 as int, y0 as int, x1 as int, y1 as int, r as int, 1, px, py) == in_brush(
                    x as int,
                    y as int,
                    r as int,
                    px,
                    py,
                ) by {
                if in_brush(x as int, y as int, r as int, px, py) {
                    assert(stamp_hits(x0 as int, y0 as int, x1 as int, y1 as int, r as int, 0, px, py));
                }
            }
        }
        while !(x == x1 as i64 && y == y1 as i64)
            invariant
                r == brush_radius(width),
                -0x4000_0000 <= r <= 0x3fff_ffff,
                dx == distance(x0 as int, x1 as int),
                dy == distance(y0 as int, y1 as int),
                n == step_count(x0 as int, y0 as int, x1 as int, y1 as int),
                sx == (if x0 < x1 { 1i64 } else { -1i64 }),
                sy == (if y0 < y1 { 1i64 } else { -1i64 }),
                0 <= k <= n,
                x == toward(x0 as int, x1 as int, progress(dx as int, n, k)),
                y == toward(y0 as int, y1 as int, progress(dy as int, n, k)),
                err == error_term(dx as int, dy as int, progress(dx as int, n, k), progress(dy as int, n, k)),
                -0x5_0000_0000 <= err <= 0x5_0000_0000,
                size == canvas_size(*old(self)),
                canvas_size(*self) == size,
                forall|px: int, py: int|
                    #[trigger] pixel_at(*self, px, py) == (if drawable(size, px, py) && covered_before(
                        x0 as int,
                        y0 as int,
                        x1 as int,
                        y1 as int,
                        r as int,
                        k + 1,
                        px,
                        py,
                    ) {
                        color
                    } else {
                        pixel_at(*old(self), px, py)
                    }),
            decreases n - k,
        {
            proof {
                if k == n {
                    if n > 0 {
                        lemma_progress_ends(dx as int, n);
                        lemma_progress_ends(dy as int, n);
                    }
                    assert(false);
                }
                lemma_walk_step(dx as int, dy as int, k);
                lemma_progress_range(dx as int, n, k + 1);
                lemma_progress_range(dy as int, n, k + 1);
            }
            let e2 = 2 * err;
            if e2 > -dy {
                err = err - dy;
                x = x + sx;
            }
            if e2 < dx {
                err = err + dx;
                y = y + sy;
            }
            self.stamp(x, y, r, color);
            proof {
                assert forall|px: int, py: int|
                    covered_before(x0 as int, y0 as int, x1 as int, y1 as int, r as int, k + 2, px, py) == (
                    covered_before(x0 as int, y0 as int, x1 as int, y1 as int, r as int, k + 1, px, py)
                        || in_brush(x as int, y as int, r as int, px, py)) by {
                    if in_brush(x as int, y as int, r as int, px, py) {
                        assert(stamp_hits(x0 as int, y0 as int, x1 as int, y1 as int, r as int, k + 1, px, py));
                    }
                }
                k = k + 1;
            }
        }
        proof {
            if k < n {
                lemma_progress_major(n, k);
                assert(false);
            }
        }
    }

    /// Draws a stroke: a line for each leg between two neighbouring points, in the
    /// stroke's colour and width. A stroke of fewer than two points leaves no mark.
    pub fn draw_polyline(&mut self, line: &Polyline)
        ensures
            canvas_size(*final(self)) == canvas_size(*old(self)),
            forall|px: int, py: int|
                #[trigger] pixel_at(*final(self), px, py) == (if drawable(canvas_size(*old(self)), px, py)
                    && polyline_covers(*line, px, py) {
                    line.color
                } else {
                    pixel_at(*old(self), px, py)
                }),
    {
        let len = line.points.len();
        if len > 1 {
            let ghost size = canvas_size(*self);
            let mut i: usize = 0;
            while i < len - 1
                invariant
                    len == line.points@.len(),
                    len > 1,
                    i <= len - 1,
                    size == canvas_size(*old(self)),
                    canvas_size(*self) == size,
                    forall|px: int, py: int|
                        #[trigger] pixel_at(*self, px, py) == (if drawable(size, px, py) && legs_cover(
                            *line,
                            i as int,
                            px,
                            py,
                        ) {
                            line.color
                        } else {
                            pixel_at(*old(self), px, py)
                        }),
                decreases len - 1 - i,
            {
                let from = line.points[i];
                let to = line.points[i + 1];
                self.draw_line(from.0, from.1, to.0, to.1, line.color, line.width);
                proof {
                    assert forall|px: int, py: int|
                        #![trigger legs_cover(*line, i + 1, px, py)]
                        legs_cover(*line, i + 1, px, py) == (legs_cover(*line, i as int, px, py)
                            || segment_covers(
                            from.0 as int,
                            from.1 as int,
                            to.0 as int,
                            to.1 as int,
                            line.width,
                            px,
                            py,
                        )) by {
                        assert(leg_covers(*line, i as int, px, py) == segment_covers(
                            from.0 as int,
                            from.1 as int,
                            to.0 as int,
                            to.1 as int,
                            line.width,
                            px,
                            py,
                        ));
                    }
                }
                i = i + 1;
            }
        }
    }

    /// Hatches the rectangle of a line of text in black, where drawing reaches it.
    pub fn draw_text_box(&mut self, area: &TextBox)
        ensures
            canvas_size(*final(self)) == canvas_size(*old(self)),
            forall|px: int, py: int|
                #[trigger] pixel_at(*final(self), px, py) == (if drawable(canvas_size(*old(self)), px, py)
                    && box_hatches(*area, px, py) {
                    ink()
                } else {
                    pixel_at(*old(self), px, py)
                }),
    {
        let (cw, ch) = dimensions(self);
        let w = signed_of(cw);
        let h = signed_of(ch);
        let ghost size = canvas_size(*self);
        let black = Color { r: 0, g: 0, b: 0 };
        let left: i64 = if area.x > 0 { area.x as i64 } else { 0 };
        let top: i64 = if area.y > 0 { area.y as i64 } else { 0 };
        let right: i64 = if area.x as i64 + area.width as i64 <= w {
            area.x as i64 + area.width as i64
        } else {
            w
        };
        let bottom: i64 = if area.y as i64 + area.height as i64 <= h {
            area.y as i64 + area.height as i64
        } else {
            h
        };
        let mut x: i64 = left;
        while x < right
            invariant
                left <= x,
                0 <= left,
                0 <= top,
                right <= w,
                bottom <= h,
                left == (if area.x > 0 { area.x as int } else { 0 }),
                top == (if area.y > 0 { area.y as int } else { 0 }),
                right == (if area.x + area.width <= w { area.x + area.width } else { w as int }),
                bottom == (if area.y + area.height <= h { area.y + area.height } else { h as int }),
                black == ink(),
                size == canvas_size(*old(self)),
                canvas_size(*self) == size,
                w == signed(size.0),
                h == signed(size.1),
                forall|px: int, py: int|
                    #[trigger] pixel_at(*self, px, py) == (if drawable(size, px, py) && box_hatches(
                        *area,
                        px,
                        py,
                    ) && px < x {
                        ink()
                    } else {
                        pixel_at(*old(self), px, py)
                    }),
            decreases right - x,
        {
            let mut y: i64 = top;
            while y < bottom
                invariant
                    left <= x < right,
                    top <= y,
                    0 <= left,
                    0 <= top,
                    right <= w,
                    bottom <= h,
                    left == (if area.x > 0 { area.x as int } else { 0 }),
                    top == (if area.y > 0 { area.y as int } else { 0 }),
                    right == (if area.x + area.width <= w { area.x + area.width } else { w as int }),
                    bottom == (if area.y + area.height <= h { area.y + area.height } else { h as int }),
                    black == ink(),
                    size == canvas_size(*old(self)),
                    canvas_size(*self) == size,
                    w == signed(size.0),
                    h == signed(size.1),
                    forall|px: int, py: int|
                        #[trigger] pixel_at(*self, px, py) == (if drawable(size, px, py) && box_hatches(
                            *area,
                            px,
                            py,
                        ) && (px < x || (px == x && py < y)) {
                            ink()
                        } else {
                            pixel_at(*old(self), px, py)
                        }),
                decreases bottom - y,
            {
                if (x + y) % 4 == 0 {
                    put_pixel(self, x as u32, y as u32, black);
                }
                y = y + 1;
            }
            x = x + 1;
        }
    }
}

/// The picture of a page: paper, then the strokes in their order, then the hatching of
/// the text boxes.
pub fn render_page(width: u32, height: u32, strokes: &Vec<Polyline>, boxes: &Vec<TextBox>) -> (canvas:
    Canvas)
    requires
        3 * width * height <= isize::MAX,
    ensures
        canvas_size(canvas) == (width, height),
        forall|px: int, py: int|
            on_canvas((width, height), px, py) ==> #[trigger] pixel_at(canvas, px, py) == page_pixel(
                strokes@,
                boxes@,
                (width, height),
                px,
                py,
            ),
{
    let mut canvas = Canvas::new(width, height, Color { r: 245, g: 245, b: 245 });
    let ghost size = (width, height);
    let mut i: usize = 0;
    while i < strokes.len()
        invariant
            i <= strokes.len(),
            canvas_size(canvas) == size,
            forall|px: int, py: int|
                on_canvas(size, px, py) ==> #[trigger] pixel_at(canvas, px, py) == (if drawable(size, px, py) {
                    strokes_color(strokes@.take(i as int), paper(), px, py)
                } else {
                    paper()
                }),
        decreases strokes.len() - i,
    {
        canvas.draw_polyline(&strokes[i]);
        proof {
            assert(strokes@.take(i + 1).last() == strokes@[i as int]);
            assert(strokes@.take(i + 1).drop_last() == strokes@.take(i as int));
        }
        i = i + 1;
    }
    proof {
        assert(strokes@.take(strokes.len() as int) == strokes@);
    }
    let mut j: usize = 0;
    while j < boxes.len()
        invariant
            j <= boxes.len(),
            canvas_size(canvas) == size,
            forall|px: int, py: int|
                on_canvas(size, px, py) ==> #[trigger] pixel_at(canvas, px, py) == (if !drawable(size, px, py) {
                    paper()
                } else if boxes_hatch(boxes@, j as int, px, py) {
                    ink()
                } else {
                    strokes_color(strokes@, paper(), px, py)
                }),
        decreases boxes.len() - j,
    {
        canvas.draw_text_box(&boxes[j]);
        proof {
            assert forall|px: int, py: int|
                boxes_hatch(boxes@, j + 1, px, py) == (boxes_hatch(boxes@, j as int, px, py) || box_hatches(
                    boxes@[j as int],
                    px,
                    py,
                )) by {}
        }
        j = j + 1;
    }
    canvas
}

} // verus!
