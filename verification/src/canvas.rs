//! A place to draw pixels.
//!
//! A flat run of bytes in `Argb8888`, each pixel a `u32` in the machine's own byte order --
//! the layout of the `wl_shm` buffer the compositor shares -- with just enough to paint the
//! desktop: rectangles, single pixels, and blending coverage or an image over what is already
//! there.
//!
//! Coordinates are the buffer's own, top-left origin. Everything is clipped to the canvas, so
//! a widget that lays out slightly off the edge draws less rather than failing.

use vstd::prelude::*;

verus! {

/// A colour as `0xAARRGGBB`.
#[derive(Debug, Clone, Copy, PartialEq, Eq, Structural)]
pub struct Rgb(pub u32);

impl Rgb {
    /// The red, green and blue channels.
    pub fn channels(&self) -> (r: (u8, u8, u8))
        ensures
            r.0 == ((self.0 >> 16) & 0xff),
            r.1 == ((self.0 >> 8) & 0xff),
            r.2 == (self.0 & 0xff),
    {
        let v = self.0;
        assert(((v >> 16) & 0xff) <= 0xff && ((v >> 8) & 0xff) <= 0xff && (v & 0xff) <= 0xff) by (bit_vector);
        (((v >> 16) & 0xff) as u8, ((v >> 8) & 0xff) as u8, (v & 0xff) as u8)
    }
}

/// The four bytes `u32::to_ne_bytes` writes for `v`, in the machine's own byte order.
pub uninterp spec fn ne_bytes(v: u32) -> Seq<u8>;

/// The value `u32::from_ne_bytes` reads from four bytes in the machine's own byte order.
pub uninterp spec fn ne_value(bytes: Seq<u8>) -> u32;

/// `u32::to_ne_bytes`. Whatever the byte order, reading the bytes back with
/// `u32::from_ne_bytes` gives the value again, as std documents.
#[verifier::external_body]
fn to_ne(v: u32) -> (r: [u8; 4])
    ensures
        r@ == ne_bytes(v),
        ne_value(r@) == v,
{
    v.to_ne_bytes()
}

/// `u32::from_ne_bytes`. Four zero bytes read as 0 whatever the byte order.
#[verifier::external_body]
fn from_ne(bytes: [u8; 4]) -> (r: u32)
    ensures
        r == ne_value(bytes@),
        bytes@ == seq![0u8, 0u8, 0u8, 0u8] ==> r == 0,
{
    u32::from_ne_bytes(bytes)
}

/// A rectangle in canvas pixels. Right and bottom are exclusive.
#[derive(Debug, Clone, Copy, PartialEq, Eq, Structural)]
pub struct Rect {
    pub x: i32,
    pub y: i32,
    pub w: i32,
    pub h: i32,
}

impl Rect {
    /// Its right and bottom edges can be written in an `i32`.
    pub open spec fn fits(self) -> bool {
        i32::MIN <= self.x + self.w <= i32::MAX && i32::MIN <= self.y + self.h <= i32::MAX
    }

    /// Whether `(x, y)` is inside, the right and bottom edges excluded.
    pub open spec fn holds(self, x: int, y: int) -> bool {
        self.x <= x < self.x + self.w && self.y <= y < self.y + self.h
    }

    pub fn new(x: i32, y: i32, w: i32, h: i32) -> (r: Self)
        ensures
            r == (Rect { x, y, w, h }),
    {
        Self { x, y, w, h }
    }

    pub fn left(&self) -> (r: i32)
        ensures
            r == self.x,
    {
        self.x
    }

    pub fn top(&self) -> (r: i32)
        ensures
            r == self.y,
    {
        self.y
    }

    pub fn right(&self) -> (r: i32)
        requires
            self.fits(),
        ensures
            r == self.x + self.w,
    {
        self.x + self.w
    }

    pub fn bottom(&self) -> (r: i32)
        requires
            self.fits(),
        ensures
            r == self.y + self.h,
    {
        self.y + self.h
    }

    /// Whether a point is inside. The pixel at `right()`/`bottom()` belongs to the next
    /// rectangle along.
    pub fn contains(&self, x: i32, y: i32) -> (r: bool)
        requires
            self.fits(),
        ensures
            r == self.holds(x as int, y as int),
    {
        x >= self.left() && x < self.right() && y >= self.top() && y < self.bottom()
    }

    /// Shrink on every side by `by`. Negative grows it; a side that would go negative is
    /// empty.
    pub fn inset(&self, by: i32) -> (r: Rect)
        requires
            i32::MIN <= self.x + by <= i32::MAX,
            i32::MIN <= self.y + by <= i32::MAX,
            i32::MIN <= self.w - 2 * by <= i32::MAX,
            i32::MIN <= self.h - 2 * by <= i32::MAX,
        ensures
            r == (Rect {
                x: (self.x + by) as i32,
                y: (self.y + by) as i32,
                w: (if self.w - 2 * by > 0 {
                    self.w - 2 * by
                } else {
                    0
                }) as i32,
                h: (if self.h - 2 * by > 0 {
                    self.h - 2 * by
                } else {
                    0
                }) as i32,
            }),
    {
        let w = self.w as i64 - by as i64 * 2;
        let h = self.h as i64 - by as i64 * 2;
        Rect::new(self.x + by, self.y + by, if w > 0 {
            w as i32
        } else {
            0
        }, if h > 0 {
            h as i32
        } else {
            0
        })
    }

    /// The overlap of two rectangles, empty if they do not touch.
    pub fn intersect(&self, other: Rect) -> (r: Rect)
        requires
            self.fits(),
            other.fits(),
        ensures
            r == overlap(*self, other),
            r.fits(),
    {
        let left = if self.x >= other.x {
            self.x
        } else {
            other.x
        };
        let top = if self.y >= other.y {
            self.y
        } else {
            other.y
        };
        let right = if self.right() <= other.right() {
            self.right()
        } else {
            other.right()
        };
        let bottom = if self.bottom() <= other.bottom() {
            self.bottom()
        } else {
            other.bottom()
        };
        let w = if right as i64 - left as i64 > 0 {
            (right as i64 - left as i64) as i32
        } else {
            0
        };
        let h = if bottom as i64 - top as i64 > 0 {
            (bottom as i64 - top as i64) as i32
        } else {
            0
        };
        Rect::new(left, top, w, h)
    }
}

/// The larger of two integers.
pub open spec fn max(a: int, b: int) -> int {
    if a >= b {
        a
    } else {
        b
    }
}

/// The smaller of two integers.
pub open spec fn min(a: int, b: int) -> int {
    if a <= b {
        a
    } else {
        b
    }
}

/// The overlap of two rectangles: the larger left and top, the smaller right and bottom, and
/// no negative size.
pub open spec fn overlap(a: Rect, b: Rect) -> Rect {
    let left = max(a.x as int, b.x as int);
    let top = max(a.y as int, b.y as int);
    let right = min(a.x + a.w, b.x + b.w);
    let bottom = min(a.y + a.h, b.y + b.h);
    Rect {
        x: left as i32,
        y: top as i32,
        w: max(right - left, 0) as i32,
        h: max(bottom - top, 0) as i32,
    }
}

/// A drawing surface over a buffer of pixels.
pub struct Canvas {
    pixels: Vec<u8>,
    width: i32,
    height: i32,
}

/// The mathematical content of a [`Canvas`]: its size, and the value of every pixel, row by
/// row from the top left.
pub struct CanvasView {
    pub width: int,
    pub height: int,
    pub pixels: Seq<u32>,
}

/// The value of pixel `k` of a buffer.
pub open spec fn pixel_of(bytes: Seq<u8>, k: int) -> u32 {
    ne_value(bytes.subrange(4 * k, 4 * k + 4))
}

impl View for Canvas {
    type V = CanvasView;

    closed spec fn view(&self) -> CanvasView {
        CanvasView {
            width: self.width as int,
            height: self.height as int,
            pixels: Seq::new(
                (self.width * self.height) as nat,
                |k: int| pixel_of(self.pixels@, k),
            ),
        }
    }
}

impl Canvas {
    /// The buffer holds every pixel, and every byte offset fits in an `i32`.
    pub closed spec fn wf(&self) -> bool {
        &&& 0 <= self.width
        &&& 0 <= self.height
        &&& self.width * self.height * 4 <= i32::MAX
        &&& self.width * self.height * 4 <= self.pixels@.len()
    }
}

/// Pixel `k`'s column.
pub open spec fn col(k: int, width: int) -> int {
    k % width
}

/// Pixel `k`'s row.
pub open spec fn row(k: int, width: int) -> int {
    k / width
}

/// Whether pixel `k` of a canvas `width` wide lies in `rect`.
pub open spec fn covers(rect: Rect, width: int, k: int) -> bool {
    rect.holds(col(k, width), row(k, width))
}

/// The pixel at `(x, y)` is number `y * width + x`, and that number's row and column are `y`
/// and `x`.
pub proof fn lemma_index(x: int, y: int, width: int)
    requires
        0 <= x < width,
        0 <= y,
    ensures
        row(y * width + x, width) == y,
        col(y * width + x, width) == x,
{
    vstd::arithmetic::div_mod::lemma_fundamental_div_mod_converse(y * width + x, width, y, x);
}

/// A pixel of a canvas `width` by `height` lies in its rows and columns, at
/// `row * width + col`.
pub proof fn lemma_row_bound(k: int, width: int, height: int)
    requires
        0 <= k < width * height,
        0 <= width,
        0 <= height,
    ensures
        0 < width,
        k == row(k, width) * width + col(k, width),
        0 <= row(k, width) < height,
        0 <= col(k, width) < width,
{
    assert(width > 0) by (nonlinear_arith)
        requires
            0 <= k < width * height,
            0 <= width,
            0 <= height,
    ;
    vstd::arithmetic::div_mod::lemma_fundamental_div_mod(k, width);
    vstd::arithmetic::div_mod::lemma_mod_bound(k, width);
    vstd::arithmetic::div_mod::lemma_div_pos_is_pos(k, width);
    let r = row(k, width);
    let c = col(k, width);
    assert(k == r * width + c) by (nonlinear_arith)
        requires
            k == width * r + c,
    ;
    assert(r < height) by (nonlinear_arith)
        requires
            k == r * width + c,
            0 <= c,
            k < width * height,
            width > 0,
    ;
}

/// The bytes of `a` and `b` put together as one big-endian value: `a` the most significant.
pub open spec fn argb(a: u32, r: u32, g: u32, b: u32) -> u32 {
    ((a << 24) | (r << 16) | (g << 8) | b) as u32
}

/// Source-over of one channel, rounded: `src * alpha + dst * (255 - alpha)`, over 255.
pub open spec fn over(src: int, dst: int, alpha: int) -> int {
    (src * alpha + dst * (255 - alpha) + 127) / 255
}

/// Byte `i` of a value counted from the most significant, as `u32::to_be_bytes` lays it out.
pub open spec fn be_byte(v: u32, i: int) -> int {
    ((v >> ((24 - 8 * i) as u32)) & 0xff) as int
}

/// `colour` laid over `dst` by `coverage`, in premultiplied alpha: the alpha channel blends
/// toward opaque, each colour channel toward the colour's.
pub open spec fn blended(colour: u32, coverage: u8, dst: u32) -> u32 {
    let alpha = coverage as int;
    argb(
        over(255, be_byte(dst, 0), alpha) as u32,
        over(be_byte(colour, 1), be_byte(dst, 1), alpha) as u32,
        over(be_byte(colour, 2), be_byte(dst, 2), alpha) as u32,
        over(be_byte(colour, 3), be_byte(dst, 3), alpha) as u32,
    )
}

/// One already-premultiplied pixel composited over `dst`: only the destination is scaled.
pub open spec fn composited(pixel: u32, dst: u32) -> u32 {
    let alpha = be_byte(pixel, 0);
    if alpha == 255 {
        pixel
    } else {
        argb(
            ((be_byte(pixel, 0) * 255 + be_byte(dst, 0) * (255 - alpha) + 127) / 255) as u32,
            ((be_byte(pixel, 1) * 255 + be_byte(dst, 1) * (255 - alpha) + 127) / 255) as u32,
            ((be_byte(pixel, 2) * 255 + be_byte(dst, 2) * (255 - alpha) + 127) / 255) as u32,
            ((be_byte(pixel, 3) * 255 + be_byte(dst, 3) * (255 - alpha) + 127) / 255) as u32,
        )
    }
}

/// Whether `(x, y)` is a pixel of a canvas this size.
pub open spec fn on_canvas(c: CanvasView, x: int, y: int) -> bool {
    0 <= x < c.width && 0 <= y < c.height
}

/// The canvas with pixel `(x, y)` set, when it is on the canvas.
pub open spec fn with_pixel(c: CanvasView, x: int, y: int, v: u32) -> CanvasView {
    if on_canvas(c, x, y) {
        CanvasView { pixels: c.pixels.update(y * c.width + x, v), ..c }
    } else {
        c
    }
}

/// The canvas with every pixel `rect` covers set to `v`.
pub open spec fn with_rect(c: CanvasView, rect: Rect, v: u32) -> CanvasView {
    CanvasView {
        pixels: Seq::new(
            c.pixels.len(),
            |k: int| if covers(rect, c.width, k) {
                v
            } else {
                c.pixels[k]
            },
        ),
        ..c
    }
}

/// A well-formed canvas has one pixel for each of its `width * height` positions.
pub proof fn lemma_canvas_size(c: &Canvas)
    requires
        c.wf(),
    ensures
        c@.pixels.len() == c@.width * c@.height,
        0 <= c@.width,
        0 <= c@.height,
        c@.width * c@.height <= i32::MAX,
{
}

impl Canvas {
    /// Wrap a buffer holding `width * height` pixels of four bytes each.
    pub fn new(pixels: Vec<u8>, width: i32, height: i32) -> (r: Self)
        requires
            0 <= width,
            0 <= height,
            width * height * 4 <= i32::MAX,
            width * height * 4 <= pixels.len(),
        ensures
            r@.width == width,
            r@.height == height,
            r@.pixels == Seq::new((width * height) as nat, |k: int| pixel_of(pixels@, k)),
            r.wf(),
    {
        Canvas { pixels, width, height }
    }

    /// Hand the buffer back.
    pub fn into_pixels(self) -> (r: Vec<u8>)
        ensures
            self@.pixels == Seq::new(
                (self@.width * self@.height) as nat,
                |k: int| pixel_of(r@, k),
            ),
    {
        self.pixels
    }

    pub fn width(&self) -> (r: i32)
        ensures
            r == self@.width,
    {
        self.width
    }

    pub fn height(&self) -> (r: i32)
        ensures
            r == self@.height,
    {
        self.height
    }

    /// The whole canvas as a rectangle, for clipping against.
    pub fn bounds(&self) -> (r: Rect)
        ensures
            r == (Rect { x: 0, y: 0, w: self@.width as i32, h: self@.height as i32 }),
            r.fits(),
    {
        Rect::new(0, 0, self.width, self.height)
    }

    /// Set one pixel, if it is on the canvas.
    pub fn put(&mut self, x: i32, y: i32, colour: Rgb)
        requires
            old(self).wf(),
        ensures
            final(self)@ == with_pixel(old(self)@, x as int, y as int, colour.0),
            final(self).wf(),
            final(self)@.pixels.len() == old(self)@.pixels.len(),
            final(self)@.width == old(self)@.width,
            final(self)@.height == old(self)@.height,
    {
        if x < 0 || y < 0 || x >= self.width || y >= self.height {
            return;
        }
        let ghost before = self.pixels@;
        let ghost w = self.width as int;
        let ghost h = self.height as int;
        proof {
            assert(y * w + x < w * h) by (nonlinear_arith)
                requires
                    0 <= x < w,
                    0 <= y < h,
            ;
            assert(0 <= y * w + x) by (nonlinear_arith)
                requires
                    0 <= x,
                    0 <= y,
                    0 <= w,
            ;
        }
        let offset = ((y * self.width + x) * 4) as usize;
        let bytes = to_ne(colour.0);
        self.pixels.set(offset, bytes[0]);
        self.pixels.set(offset + 1, bytes[1]);
        self.pixels.set(offset + 2, bytes[2]);
        self.pixels.set(offset + 3, bytes[3]);
        proof {
            let k0 = y * w + x;
            assert(self.pixels@.subrange(4 * k0, 4 * k0 + 4) =~= bytes@);
            assert forall|k: int| 0 <= k < w * h && k != k0 implies #[trigger] pixel_of(self.pixels@, k) == pixel_of(before, k) by {
                assert(self.pixels@.subrange(4 * k, 4 * k + 4) =~= before.subrange(4 * k, 4 * k + 4));
            }
            assert(self@.pixels =~= old(self)@.pixels.update(k0, colour.0));
        }
    }

    /// Read one pixel. Off the canvas reads as opaque black.
    pub fn get(&self, x: i32, y: i32) -> (r: Rgb)
        requires
            self.wf(),
        ensures
            r.0 == if on_canvas(self@, x as int, y as int) {
                self@.pixels[y * self@.width + x]
            } else {
                0xff00_0000u32
            },
    {
        if x < 0 || y < 0 || x >= self.width || y >= self.height {
            return Rgb(0xff00_0000);
        }
        let ghost w = self.width as int;
        let ghost h = self.height as int;
        proof {
            assert(y * w + x < w * h) by (nonlinear_arith)
                requires
                    0 <= x < w,
                    0 <= y < h,
            ;
            assert(0 <= y * w + x) by (nonlinear_arith)
                requires
                    0 <= x,
                    0 <= y,
                    0 <= w,
            ;
        }
        let offset = ((y * self.width + x) * 4) as usize;
        let bytes = [
            self.pixels[offset],
            self.pixels[offset + 1],
            self.pixels[offset + 2],
            self.pixels[offset + 3],
        ];
        proof {
            let k0 = y * w + x;
            assert(bytes@ =~= self.pixels@.subrange(4 * k0, 4 * k0 + 4));
        }
        Rgb(from_ne(bytes))
    }

    /// Paint every pixel one colour.
    pub fn clear(&mut self, colour: Rgb)
        requires
            old(self).wf(),
        ensures
            final(self)@.width == old(self)@.width,
            final(self)@.height == old(self)@.height,
            final(self)@.pixels == Seq::new(old(self)@.pixels.len(), |k: int| colour.0),
            final(self).wf(),
    {
        let all = self.bounds();
        let ghost start = self@;
        self.fill_rect(all, colour);
        proof {
            assert forall|k: int| 0 <= k < start.pixels.len() implies covers(all, start.width, k) by {
                lemma_row_bound(k, start.width, start.height);
            }
            assert(self@.pixels =~= Seq::new(start.pixels.len(), |k: int| colour.0));
        }
    }

    /// Fill a rectangle, clipped to the canvas.
    pub fn fill_rect(&mut self, rect: Rect, colour: Rgb)
        requires
            old(self).wf(),
            rect.fits(),
        ensures
            final(self)@ == with_rect(old(self)@, rect, colour.0),
            final(self).wf(),
    {
        let clipped = rect.intersect(self.bounds());
        let ghost start = self@;
        let ghost w = self.width as int;
        proof {
            assert forall|k: int| 0 <= k < start.pixels.len() implies covers(clipped, w, k) == covers(
                rect,
                w,
                k,
            ) by {
                lemma_row_bound(k, w, start.height);
            }
        }
        let mut y = clipped.top();
        while y < clipped.bottom()
            invariant
                self@.width == start.width,
                self@.height == start.height,
                w == start.width,
                self@.pixels.len() == start.pixels.len(),
                self.wf(),
                clipped == overlap(rect, Rect { x: 0, y: 0, w: w as i32, h: start.height as i32 }),
                clipped.fits(),
                clipped.y <= y,
                forall|k: int|
                    0 <= k < start.pixels.len() ==> #[trigger] self@.pixels[k] == if covers(clipped, w, k)
                        && row(k, w) < y {
                        colour.0
                    } else {
                        start.pixels[k]
                    },
            decreases clipped.y + clipped.h - y,
        {
            let mut x = clipped.left();
            while x < clipped.right()
                invariant
                    self@.width == start.width,
                    self@.height == start.height,
                    w == start.width,
                    self@.pixels.len() == start.pixels.len(),
                    self.wf(),
                    clipped == overlap(rect, Rect { x: 0, y: 0, w: w as i32, h: start.height as i32 }),
                    clipped.fits(),
                    clipped.x <= x,
                    clipped.y <= y < clipped.y + clipped.h,
                    forall|k: int|
                        0 <= k < start.pixels.len() ==> #[trigger] self@.pixels[k] == if covers(clipped, w, k)
                            && (row(k, w) < y || (row(k, w) == y && col(k, w) < x)) {
                            colour.0
                        } else {
                            start.pixels[k]
                        },
                decreases clipped.x + clipped.w - x,
            {
                let ghost before = self@;
                self.put(x, y, colour);
                proof {
                    lemma_index(x as int, y as int, w);
                    assert(self@ == with_pixel(before, x as int, y as int, colour.0));
                    assert(on_canvas(before, x as int, y as int));
                    let h = start.height;
                    assert(y * w + x < w * h) by (nonlinear_arith)
                        requires
                            0 <= x < w,
                            0 <= y < h,
                    ;
                    assert(start.pixels.len() == w * h);
                    assert(self@.pixels == before.pixels.update(y * w + x, colour.0));
                    assert forall|k: int| 0 <= k < start.pixels.len() implies #[trigger] self@.pixels[k] == if covers(clipped, w, k)
                        && (row(k, w) < y || (row(k, w) == y && col(k, w) < x + 1)) {
                        colour.0
                    } else {
                        start.pixels[k]
                    } by {
                        lemma_row_bound(k, w, start.height);
                        if k != y * w + x {
                            assert(self@.pixels[k] == before.pixels[k]);
                            if row(k, w) == y && col(k, w) == x {
                                assert(k == y * w + x);
                            }
                        }
                    }
                }
                x = x + 1;
            }
            proof {
                assert forall|k: int| 0 <= k < start.pixels.len() implies #[trigger] self@.pixels[k] == if covers(clipped, w, k)
                    && row(k, w) < y + 1 {
                    colour.0
                } else {
                    start.pixels[k]
                } by {
                    lemma_row_bound(k, w, start.height);
                }
            }
            y = y + 1;
        }
        proof {
            assert forall|k: int| 0 <= k < start.pixels.len() implies #[trigger] self@.pixels[k] == if covers(rect, w, k) {
                colour.0
            } else {
                start.pixels[k]
            } by {
                lemma_row_bound(k, w, start.height);
            }
            assert(self@.pixels =~= with_rect(start, rect, colour.0).pixels);
        }
    }

    /// Erase the canvas to fully transparent: every byte zero.
    ///
    /// This is what the desktop clears to, not a colour: the icons sit on a layer surface with
    /// the wallpaper below, which shows through wherever nothing is drawn.
    pub fn clear_transparent(&mut self)
        requires
            old(self).wf(),
        ensures
            final(self)@.width == old(self)@.width,
            final(self)@.height == old(self)@.height,
            final(self)@.pixels == Seq::new(old(self)@.pixels.len(), |k: int| 0u32),
            final(self).wf(),
    {
        // The bytes of 0, which read back as 0 in the machine's own byte order.
        let zero = to_ne(0);
        let mut i: usize = 0;
        while i < self.pixels.len()
            invariant
                i <= self.pixels.len(),
                self.pixels.len() == old(self).pixels.len(),
                self.width == old(self).width,
                self.height == old(self).height,
                ne_value(zero@) == 0,
                forall|j: int| 0 <= j < i ==> #[trigger] self.pixels@[j] == zero@[j % 4],
            decreases self.pixels.len() - i,
        {
            self.pixels.set(i, zero[i % 4]);
            i = i + 1;
        }
        proof {
            assert forall|k: int| 0 <= k < old(self)@.pixels.len() implies #[trigger] pixel_of(self.pixels@, k) == 0 by {
                assert(4 * k + 4 <= self.width * self.height * 4) by (nonlinear_arith)
                    requires
                        k < self.width * self.height,
                ;
                assert forall|j: int| 0 <= j < 4 implies #[trigger] self.pixels@.subrange(4 * k, 4 * k + 4)[j] == zero@[j] by {
                    assert((4 * k + j) % 4 == j);
                }
                assert(self.pixels@.subrange(4 * k, 4 * k + 4) =~= zero@);
            }
            assert(self@.pixels =~= Seq::new(old(self)@.pixels.len(), |k: int| 0u32));
        }
    }
}


/// Whether pixel `k` lies on the one-pixel outline just inside `rect`.
pub open spec fn on_outline(rect: Rect, width: int, k: int) -> bool {
    &&& covers(rect, width, k)
    &&& (col(k, width) == rect.x || col(k, width) == rect.x + rect.w - 1 || row(k, width)
        == rect.y || row(k, width) == rect.y + rect.h - 1)
}

/// The pixel at `(x, y)`, or opaque black off the canvas.
pub open spec fn pixel_at(c: CanvasView, x: int, y: int) -> u32 {
    if on_canvas(c, x, y) {
        c.pixels[y * c.width + x]
    } else {
        0xff00_0000u32
    }
}

/// Byte `i` of `v`, counted from the most significant.
pub(crate) fn byte_of(v: u32, i: u32) -> (r: u32)
    requires
        i < 4,
    ensures
        r == be_byte(v, i as int),
        r <= 0xff,
{
    let shift = 24 - 8 * i;
    assert((v >> shift) & 0xff <= 0xff) by (bit_vector);
    (v >> shift) & 0xff
}

/// `(s * ws + t * wt + 127) / 255`, for bytes and weights no more than 255.
pub(crate) fn weigh(s: u32, ws: u32, t: u32, wt: u32) -> (r: u32)
    requires
        s <= 255,
        ws <= 255,
        t <= 255,
        wt <= 255,
    ensures
        r == (s * ws + t * wt + 127) / 255,
{
    assert(s * ws <= 255 * 255 && t * wt <= 255 * 255) by (nonlinear_arith)
        requires
            s <= 255,
            ws <= 255,
            t <= 255,
            wt <= 255,
    ;
    (s * ws + t * wt + 127) / 255
}

/// The four bytes of a value put together, most significant first.
pub(crate) fn pack(a: u32, r: u32, g: u32, b: u32) -> (v: u32)
    ensures
        v == argb(a, r, g, b),
{
    (a << 24) | (r << 16) | (g << 8) | b
}

impl Canvas {
    /// A one-pixel outline just inside `rect`; nothing for an empty rectangle.
    pub fn stroke_rect(&mut self, rect: Rect, colour: Rgb)
        requires
            old(self).wf(),
            rect.fits(),
        ensures
            final(self).wf(),
            final(self)@.width == old(self)@.width,
            final(self)@.height == old(self)@.height,
            final(self)@.pixels == if rect.w <= 0 || rect.h <= 0 {
                old(self)@.pixels
            } else {
                Seq::new(
                    old(self)@.pixels.len(),
                    |k: int| if on_outline(rect, old(self)@.width, k) {
                        colour.0
                    } else {
                        old(self)@.pixels[k]
                    },
                )
            },
    {
        if rect.w <= 0 || rect.h <= 0 {
            return;
        }
        let ghost start = self@;
        let ghost w = start.width;
        let top = Rect::new(rect.x, rect.y, rect.w, 1);
        let bottom = Rect::new(rect.x, rect.bottom() - 1, rect.w, 1);
        let left = Rect::new(rect.x, rect.y, 1, rect.h);
        let right = Rect::new(rect.right() - 1, rect.y, 1, rect.h);
        self.fill_rect(top, colour);
        self.fill_rect(bottom, colour);
        self.fill_rect(left, colour);
        self.fill_rect(right, colour);
        proof {
            assert(self@.pixels =~= Seq::new(
                start.pixels.len(),
                |k: int| if on_outline(rect, w, k) {
                    colour.0
                } else {
                    start.pixels[k]
                },
            ));
        }
    }

    /// Blend `colour` over one pixel by `coverage` (0 = leave alone, 255 = opaque).
    ///
    /// The text and icon-mask path, source-over in **premultiplied** alpha, rounding rather
    /// than truncating: an antialiased edge over bare desktop ends up partly transparent, and
    /// on an already opaque pixel this is the plain interpolation.
    pub fn blend(&mut self, x: i32, y: i32, colour: Rgb, coverage: u8)
        requires
            old(self).wf(),
        ensures
            final(self).wf(),
            final(self)@ == if coverage == 0 {
                old(self)@
            } else {
                with_pixel(
                    old(self)@,
                    x as int,
                    y as int,
                    blended(colour.0, coverage, pixel_at(old(self)@, x as int, y as int)),
                )
            },
    {
        if coverage == 0 {
            return;
        }
        let dst = self.get(x, y).0;
        let alpha = coverage as u32;
        let inverse = 255 - alpha;
        let a = weigh(255, alpha, byte_of(dst, 0), inverse);
        let r = weigh(byte_of(colour.0, 1), alpha, byte_of(dst, 1), inverse);
        let g = weigh(byte_of(colour.0, 2), alpha, byte_of(dst, 2), inverse);
        let b = weigh(byte_of(colour.0, 3), alpha, byte_of(dst, 3), inverse);
        self.put(x, y, Rgb(pack(a, r, g, b)));
    }

    /// Composite one already-premultiplied ARGB pixel over what is there: a transparent one
    /// changes nothing, an opaque one replaces it, and anything between scales only the
    /// destination.
    pub fn blend_premultiplied(&mut self, x: i32, y: i32, pixel: u32)
        requires
            old(self).wf(),
        ensures
            final(self).wf(),
            final(self)@ == if be_byte(pixel, 0) == 0 {
                old(self)@
            } else {
                with_pixel(
                    old(self)@,
                    x as int,
                    y as int,
                    composited(pixel, pixel_at(old(self)@, x as int, y as int)),
                )
            },
    {
        let alpha = byte_of(pixel, 0);
        if alpha == 0 {
            return;
        }
        if alpha == 255 {
            self.put(x, y, Rgb(pixel));
            return;
        }
        let inverse = 255 - alpha;
        let dst = self.get(x, y).0;
        let a = weigh(byte_of(pixel, 0), 255, byte_of(dst, 0), inverse);
        let r = weigh(byte_of(pixel, 1), 255, byte_of(dst, 1), inverse);
        let g = weigh(byte_of(pixel, 2), 255, byte_of(dst, 2), inverse);
        let b = weigh(byte_of(pixel, 3), 255, byte_of(dst, 3), inverse);
        self.put(x, y, Rgb(pack(a, r, g, b)));
    }
}

/// Blending at full coverage paints the colour itself, opaque, whatever was underneath.
pub proof fn law_full_coverage_is_opaque(colour: u32, dst: u32)
    ensures
        blended(colour, 255, dst) == (colour | 0xff00_0000),
{
    let r = be_byte(colour, 1);
    let g = be_byte(colour, 2);
    let b = be_byte(colour, 3);
    assert(0 <= r <= 255 && 0 <= g <= 255 && 0 <= b <= 255) by {
        assert(((colour >> 16u32) & 0xff) <= 0xff && ((colour >> 8u32) & 0xff) <= 0xff && ((colour >> 0u32) & 0xff) <= 0xff) by (bit_vector);
    }
    assert forall|s: int, d: int| 0 <= s <= 255 implies #[trigger] over(s, d, 255) == s by {
        assert((s * 255 + d * (255 - 255) + 127) / 255 == s) by (nonlinear_arith)
            requires
                0 <= s <= 255,
        ;
    }
    assert(over(255, be_byte(dst, 0), 255) == 255);
    assert(over(r, be_byte(dst, 1), 255) == r);
    assert(over(g, be_byte(dst, 2), 255) == g);
    assert(over(b, be_byte(dst, 3), 255) == b);
    let (r32, g32, b32) = (r as u32, g as u32, b as u32);
    assert(argb(255, r32, g32, b32) == (colour | 0xff00_0000)) by (bit_vector)
        requires
            r32 == ((colour >> 16u32) & 0xff),
            g32 == ((colour >> 8u32) & 0xff),
            b32 == ((colour >> 0u32) & 0xff),
    ;
}

} // verus!
