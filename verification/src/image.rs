//! Icons as pixels.
//!
//! An [`Image`] is premultiplied `Argb8888` at the size the desktop asked for -- the same form
//! the canvas holds, so drawing one is a straight composite with no conversion. A PNG is
//! decoded by the `png` crate and scaled here, nearest-neighbour; the theme lookup asks for the
//! nearest size first, so the scaling is usually slight.
//!
//! [`Images`] remembers what has been loaded, keyed by what was asked for, failures included:
//! an icon is redrawn on every hover and every drag frame, and a broken one must not be
//! retried each time.

use vstd::prelude::*;

use crate::canvas::{argb, be_byte, byte_of, col, composited, pack, pixel_at, row, weigh, with_pixel, Canvas, CanvasView, Rgb};

verus! {

/// A decoded icon: premultiplied `Argb8888`, ready to composite.
#[derive(Debug, Clone, PartialEq, Eq)]
pub struct Image {
    pub width: i32,
    pub height: i32,
    /// `width * height` pixels, row by row, each `0xAARRGGBB` with the colour channels already
    /// multiplied by alpha.
    pixels: Vec<u32>,
}

/// The mathematical content of an [`Image`].
pub struct ImageView {
    pub width: int,
    pub height: int,
    pub pixels: Seq<u32>,
}

impl View for Image {
    type V = ImageView;

    closed spec fn view(&self) -> ImageView {
        ImageView { width: self.width as int, height: self.height as int, pixels: self.pixels@ }
    }
}

impl Image {
    /// One pixel for each of its `width * height` positions.
    pub closed spec fn wf(&self) -> bool {
        &&& 0 <= self.width
        &&& 0 <= self.height
        &&& self.pixels@.len() == self.width * self.height
    }
}

/// Pixel `(x, y)` of an image, or fully transparent off its edge.
pub open spec fn image_pixel(i: ImageView, x: int, y: int) -> u32 {
    if 0 <= x < i.width && 0 <= y < i.height {
        i.pixels[y * i.width + x]
    } else {
        0
    }
}

/// The canvas after the first `n` pixels of `img`, row by row, are composited with the
/// image's top-left at `(x, y)`.
pub open spec fn drawn(c: CanvasView, img: ImageView, x: int, y: int, n: nat) -> CanvasView
    decreases n,
{
    if n == 0 {
        c
    } else {
        let k = n - 1;
        let before = drawn(c, img, x, y, (n - 1) as nat);
        let p = img.pixels[k];
        let cx = x + col(k, img.width);
        let cy = y + row(k, img.width);
        if be_byte(p, 0) == 0 {
            before
        } else {
            with_pixel(before, cx, cy, composited(p, pixel_at(before, cx, cy)))
        }
    }
}

/// One channel scaled by a tint channel, rounded: `channel * by / 255`.
pub open spec fn scaled(channel: int, by: int) -> int {
    (channel * by + 127) / 255
}

/// A premultiplied pixel with each colour channel multiplied by `tint`'s, alpha untouched.
pub open spec fn tinted(p: u32, tint: u32) -> u32 {
    argb(
        be_byte(p, 0) as u32,
        scaled(be_byte(p, 1), be_byte(tint, 1)) as u32,
        scaled(be_byte(p, 2), be_byte(tint, 2)) as u32,
        scaled(be_byte(p, 3), be_byte(tint, 3)) as u32,
    )
}

impl Image {
    /// An image `width` by `height` from its pixels, row by row; `None` unless there is exactly
    /// one pixel for each position.
    pub fn from_pixels(width: i32, height: i32, pixels: Vec<u32>) -> (r: Option<Image>)
        ensures
            r is Some <==> (0 <= width && 0 <= height && pixels@.len() == width * height),
            r matches Some(img) ==> img.wf() && img@ == (ImageView {
                width: width as int,
                height: height as int,
                pixels: pixels@,
            }),
    {
        if width < 0 || height < 0 {
            return None;
        }
        assert((width as u64) * (height as u64) <= 0x4000_0000_0000_0000) by (nonlinear_arith)
            requires
                0 <= width,
                0 <= height,
        ;
        let area = (width as u64) * (height as u64);
        if pixels.len() as u64 != area {
            return None;
        }
        Some(Image { width, height, pixels })
    }

    /// One pixel, or fully transparent off the edge.
    pub fn get(&self, x: i32, y: i32) -> (r: u32)
        requires
            self.wf(),
        ensures
            r == image_pixel(self@, x as int, y as int),
    {
        if x < 0 || y < 0 || x >= self.width || y >= self.height {
            return 0;
        }
        proof {
            let (w, h) = (self.width as int, self.height as int);
            assert(y * w + x < w * h) by (nonlinear_arith)
                requires
                    0 <= x < w,
                    0 <= y < h,
            ;
        }
        let n = self.pixels.len();
        assert((y as usize) * (self.width as usize) == y * self.width);
        let index = (y as usize) * (self.width as usize) + (x as usize);
        self.pixels[index]
    }

    /// Draw the image with its top-left at `(x, y)`, compositing over what is there.
    ///
    /// Source-over in premultiplied space, matching [`Canvas::blend_premultiplied`]: an icon's
    /// antialiased edge stays partly transparent so the wallpaper shows through it.
    pub fn draw(&self, canvas: &mut Canvas, x: i32, y: i32)
        requires
            self.wf(),
            old(canvas).wf(),
            x + self@.width <= i32::MAX,
            y + self@.height <= i32::MAX,
        ensures
            final(canvas).wf(),
            final(canvas)@ == drawn(old(canvas)@, self@, x as int, y as int, (self@.width * self@.height) as nat),
    {
        let ghost start = canvas@;
        let ghost img = self@;
        let w = self.width;
        let mut r: i32 = 0;
        while r < self.height
            invariant
                self.wf(),
                img == self@,
                w == self.width,
                0 <= r <= self.height,
                x + self.width <= i32::MAX,
                y + self.height <= i32::MAX,
                canvas.wf(),
                canvas@ == drawn(start, img, x as int, y as int, (r * w) as nat),
            decreases self.height - r,
        {
            let mut c: i32 = 0;
            while c < w
                invariant
                    self.wf(),
                    img == self@,
                    w == self.width,
                    0 <= r < self.height,
                    0 <= c <= w,
                    x + self.width <= i32::MAX,
                    y + self.height <= i32::MAX,
                    canvas.wf(),
                    canvas@ == drawn(start, img, x as int, y as int, (r * w + c) as nat),
                decreases w - c,
            {
                proof {
                    crate::canvas::lemma_index(c as int, r as int, w as int);
                    assert(r * w + c < w * self.height) by (nonlinear_arith)
                        requires
                            0 <= c < w,
                            0 <= r < self.height,
                    ;
                }
                let pixel = self.get(c, r);
                canvas.blend_premultiplied(x + c, y + r, pixel);
                c = c + 1;
            }
            assert(r * w + w == (r + 1) * w) by (nonlinear_arith);
            r = r + 1;
        }
        assert(r * w == self.width * self.height) by (nonlinear_arith)
            requires
                r == self.height,
                w == self.width,
        ;
    }

    /// The image with every colour channel multiplied by `tint`'s, alpha untouched.
    ///
    /// Multiply rather than replace, because replacing flattens a drawing into one solid
    /// shape: a white body with a black outline, multiplied by yellow, turns yellow while its
    /// outline stays black. Premultiplied in, premultiplied out: scaling a channel down never
    /// takes it above the alpha it started under.
    pub fn multiplied(&self, tint: Rgb) -> (r: Image)
        requires
            self.wf(),
        ensures
            r.wf(),
            r@.width == self@.width,
            r@.height == self@.height,
            r@.pixels == Seq::new(self@.pixels.len(), |k: int| tinted(self@.pixels[k], tint.0)),
    {
        let tr = byte_of(tint.0, 1);
        let tg = byte_of(tint.0, 2);
        let tb = byte_of(tint.0, 3);
        let mut pixels: Vec<u32> = Vec::new();
        let mut i: usize = 0;
        while i < self.pixels.len()
            invariant
                i <= self.pixels.len(),
                pixels@.len() == i,
                tr == be_byte(tint.0, 1),
                tg == be_byte(tint.0, 2),
                tb == be_byte(tint.0, 3),
                tr <= 255 && tg <= 255 && tb <= 255,
                forall|k: int| 0 <= k < i ==> pixels@[k] == tinted(self.pixels@[k], tint.0),
            decreases self.pixels.len() - i,
        {
            let p = self.pixels[i];
            let v = pack(
                byte_of(p, 0),
                weigh(byte_of(p, 1), tr, 0, 0),
                weigh(byte_of(p, 2), tg, 0, 0),
                weigh(byte_of(p, 3), tb, 0, 0),
            );
            pixels.push(v);
            i = i + 1;
        }
        let r = Image { width: self.width, height: self.height, pixels };
        assert(r@.pixels =~= Seq::new(self@.pixels.len(), |k: int| tinted(self@.pixels[k], tint.0)));
        r
    }
}

/// What the `png` crate decodes from `bytes`, expanded to 8 bits a channel: the pixel bytes
/// row by row, the width, the height, and how many bytes each pixel takes (4 for RGBA, 3 for
/// RGB, 2 for grey with alpha, 1 for grey, 0 for a colour type that stayed indexed); `None`
/// where the crate refuses the bytes.
pub uninterp spec fn png_decoded(bytes: Seq<u8>) -> Option<(Seq<u8>, u32, u32, u8)>;

/// The view of a decoded frame.
pub open spec fn frame_view(r: Option<(Vec<u8>, u32, u32, u8)>) -> Option<(Seq<u8>, u32, u32, u8)> {
    match r {
        Some((buffer, width, height, channels)) => Some((buffer@, width, height, channels)),
        None => None,
    }
}

/// `png::Decoder`, set to expand palettes and low bit depths and to narrow 16-bit channels
/// (`Transformations::normalize_to_color8`), reading the first frame into a buffer of
/// `Reader::output_buffer_size` bytes. The contract only names the result: it is a function
/// of the bytes and nothing else.
#[verifier::external_body]
fn decode_png(bytes: &[u8]) -> (r: Option<(Vec<u8>, u32, u32, u8)>)
    ensures
        frame_view(r) == png_decoded(bytes@),
{
    let mut decoder = png::Decoder::new(std::io::Cursor::new(bytes));
    decoder.set_transformations(png::Transformations::normalize_to_color8());
    let mut reader = decoder.read_info().ok()?;
    let mut buffer = vec![0u8; reader.output_buffer_size()?];
    let info = reader.next_frame(&mut buffer).ok()?;
    let channels: u8 = match info.color_type {
        png::ColorType::Rgba => 4,
        png::ColorType::Rgb => 3,
        png::ColorType::GrayscaleAlpha => 2,
        png::ColorType::Grayscale => 1,
        png::ColorType::Indexed => 0,
    };
    Some((buffer, info.width, info.height, channels))
}

/// A channel multiplied by its alpha, rounded.
pub open spec fn premultiplied(channel: int, alpha: int) -> int {
    (channel * alpha + 127) / 255
}

/// The source pixel that pixel `(x, y)` of a `size` square takes from a `width` by `height`
/// frame, nearest-neighbour, premultiplied. Grey expands to three equal channels; the alpha is
/// the last byte where the format has one, and opaque otherwise.
pub open spec fn nearest(buf: Seq<u8>, width: int, height: int, channels: int, size: int, x: int, y: int) -> u32 {
    let sy = if y * height / size < height - 1 { y * height / size } else { height - 1 };
    let sx = if x * width / size < width - 1 { x * width / size } else { width - 1 };
    let at = (sy * width + sx) * channels;
    let red = buf[at] as int;
    let green = if channels <= 2 { buf[at] as int } else { buf[at + 1] as int };
    let blue = if channels <= 2 { buf[at] as int } else { buf[at + 2] as int };
    let alpha = if channels == 4 || channels == 2 { buf[at + channels - 1] as int } else { 255 };
    argb(
        alpha as u32,
        premultiplied(red, alpha) as u32,
        premultiplied(green, alpha) as u32,
        premultiplied(blue, alpha) as u32,
    )
}

/// A decoded frame scaled to `size` square; `None` for an empty or oversized frame, a colour
/// type that is not one of the four plain ones, or a buffer too short for its pixels.
pub open spec fn scaled_frame(buf: Seq<u8>, width: u32, height: u32, channels: u8, size: i32) -> Option<ImageView> {
    if width == 0 || height == 0 || width > i32::MAX || height > i32::MAX || channels < 1
        || channels > 4 || buf.len() < width * height * channels {
        None
    } else {
        Some(
            ImageView {
                width: size as int,
                height: size as int,
                pixels: Seq::new(
                    (size * size) as nat,
                    |k: int| nearest(buf, width as int, height as int, channels as int, size as int, col(k, size as int), row(k, size as int)),
                ),
            },
        )
    }
}

/// What a PNG's bytes give at `size` square.
pub open spec fn png_image(bytes: Seq<u8>, size: i32) -> Option<ImageView> {
    match png_decoded(bytes) {
        Some((buf, width, height, channels)) => scaled_frame(buf, width, height, channels, size),
        None => None,
    }
}

/// The view of an image that may be missing.
pub open spec fn image_opt_view(r: Option<Image>) -> Option<ImageView> {
    match r {
        Some(img) => Some(img@),
        None => None,
    }
}

/// The eight bytes every PNG file starts with.
pub open spec fn png_signature() -> Seq<u8> {
    seq![0x89u8, 0x50u8, 0x4eu8, 0x47u8, 0x0du8, 0x0au8, 0x1au8, 0x0au8]
}

/// Whether the bytes start like a PNG. The extension is a hint, not evidence -- themes ship a
/// `.png` that is really an SVG -- so the content decides.
pub fn is_png(bytes: &[u8]) -> (r: bool)
    ensures
        r == (bytes@.len() >= 8 && bytes@.subrange(0, 8) == png_signature()),
{
    let signature: [u8; 8] = [0x89, 0x50, 0x4e, 0x47, 0x0d, 0x0a, 0x1a, 0x0a];
    if bytes.len() < 8 {
        return false;
    }
    let mut i: usize = 0;
    while i < 8
        invariant
            i <= 8,
            bytes@.len() >= 8,
            signature@ == png_signature(),
            forall|j: int| 0 <= j < i ==> bytes@[j] == png_signature()[j],
        decreases 8 - i,
    {
        if bytes[i] != signature[i] {
            assert(bytes@.subrange(0, 8)[i as int] != png_signature()[i as int]);
            return false;
        }
        i = i + 1;
    }
    assert(bytes@.subrange(0, 8) =~= png_signature());
    true
}

/// The offset of the bytes of source pixel `(sx, sy)` lies inside the buffer, with room for
/// all of its channels.
proof fn lemma_offset(sx: int, sy: int, width: int, height: int, channels: int)
    requires
        0 <= sx < width,
        0 <= sy < height,
        1 <= channels,
    ensures
        0 <= (sy * width + sx) * channels,
        (sy * width + sx) * channels + channels <= width * height * channels,
{
    assert(sy * width + sx + 1 <= width * height) by (nonlinear_arith)
        requires
            0 <= sx < width,
            0 <= sy < height,
    ;
    assert((sy * width + sx) * channels + channels == (sy * width + sx + 1) * channels) by (nonlinear_arith);
    assert((sy * width + sx + 1) * channels <= width * height * channels) by (nonlinear_arith)
        requires
            sy * width + sx + 1 <= width * height,
            1 <= channels,
    ;
    assert(0 <= (sy * width + sx) * channels) by (nonlinear_arith)
        requires
            0 <= sx,
            0 <= sy,
            0 <= width,
            1 <= channels,
    ;
}

/// Where row or column `at` of a `size` square reads from a source `extent` long:
/// `at * extent / size`, kept inside the source.
fn source_index(at: u64, extent: u64, size: u64) -> (r: u64)
    requires
        at < size,
        size <= i32::MAX,
        1 <= extent <= i32::MAX,
    ensures
        r == if at * extent / (size as int) < extent - 1 {
            at * extent / (size as int)
        } else {
            extent - 1
        },
        r < extent,
{
    assert(at * extent <= 0x4000_0000_0000_0000) by (nonlinear_arith)
        requires
            at < size,
            size <= i32::MAX,
            extent <= i32::MAX,
    ;
    let scaled = at * extent / size;
    if scaled < extent - 1 {
        scaled
    } else {
        extent - 1
    }
}

impl Image {
    /// Scale a decoded frame to `size` square, nearest-neighbour, and premultiply it.
    ///
    /// `None` for a frame that is empty, wider or taller than an `i32` counts, of a colour type
    /// other than the four plain ones, or whose buffer is shorter than its pixels.
    pub fn from_frame(buffer: &[u8], width: u32, height: u32, channels: u8, size: i32) -> (r: Option<Image>)
        requires
            0 <= size,
        ensures
            image_opt_view(r) == scaled_frame(buffer@, width, height, channels, size),
            r matches Some(img) ==> img.wf(),
    {
        if width == 0 || height == 0 || width > 0x7fff_ffff || height > 0x7fff_ffff || channels < 1 || channels > 4 {
            return None;
        }
        let (w, h, ch) = (width as u64, height as u64, channels as u64);
        assert(w * h <= 0x4000_0000_0000_0000) by (nonlinear_arith)
            requires
                w <= 0x7fff_ffff,
                h <= 0x7fff_ffff,
        ;
        let area = w * h;
        let len = buffer.len();
        assert(len as int == buffer@.len() && len as int <= 0xffff_ffff_ffff_ffff);
        match area.checked_mul(ch) {
            None => {
                return None;
            },
            Some(needed) => {
                if needed > buffer.len() as u64 {
                    return None;
                }
            },
        }
        let ghost want = scaled_frame(buffer@, width, height, channels, size).unwrap().pixels;
        let n = size as u64;
        let mut pixels: Vec<u32> = Vec::new();
        let mut y: u64 = 0;
        while y < n
            invariant
                n == size,
                y <= n,
                1 <= w <= 0x7fff_ffff,
                1 <= h <= 0x7fff_ffff,
                1 <= ch <= 4,
                w == width,
                h == height,
                ch == channels,
                w * h * ch <= buffer@.len(),
                w * h * ch <= 0xffff_ffff_ffff_ffff,
                want == scaled_frame(buffer@, width, height, channels, size).unwrap().pixels,
                pixels@.len() == y * n,
                forall|k: int| 0 <= k < pixels@.len() ==> pixels@[k] == want[k],
            decreases n - y,
        {
            let sy = source_index(y, h, n);
            let mut x: u64 = 0;
            while x < n
                invariant
                    n == size,
                    y < n,
                    x <= n,
                    1 <= w <= 0x7fff_ffff,
                    1 <= h <= 0x7fff_ffff,
                    1 <= ch <= 4,
                    w == width,
                    h == height,
                    ch == channels,
                    w * h * ch <= buffer@.len(),
                    w * h * ch <= 0xffff_ffff_ffff_ffff,
                    sy < h,
                    sy == (if y * h / (n as int) < h - 1 { y * h / (n as int) } else { h - 1 }),
                    want == scaled_frame(buffer@, width, height, channels, size).unwrap().pixels,
                    pixels@.len() == y * n + x,
                    forall|k: int| 0 <= k < pixels@.len() ==> pixels@[k] == want[k],
                decreases n - x,
            {
                let sx = source_index(x, w, n);
                proof {
                    lemma_offset(sx as int, sy as int, w as int, h as int, ch as int);
                    assert(sy * w + sx < w * h) by (nonlinear_arith)
                        requires
                            sx < w,
                            sy < h,
                    ;
                    assert(w * h <= 0x4000_0000_0000_0000) by (nonlinear_arith)
                        requires
                            w <= 0x7fff_ffff,
                            h <= 0x7fff_ffff,
                    ;
                    assert((sy * w + sx) * ch < w * h * ch) by (nonlinear_arith)
                        requires
                            sy * w + sx < w * h,
                            1 <= ch,
                    ;
                }
                let at = ((sy * w + sx) * ch) as usize;
                let red = buffer[at] as u32;
                let (green, blue) = if ch <= 2 {
                    (red, red)
                } else {
                    (buffer[at + 1] as u32, buffer[at + 2] as u32)
                };
                let alpha: u32 = if ch == 4 || ch == 2 {
                    buffer[at + (ch as usize) - 1] as u32
                } else {
                    255
                };
                let pixel = pack(alpha, weigh(red, alpha, 0, 0), weigh(green, alpha, 0, 0), weigh(blue, alpha, 0, 0));
                proof {
                    let k = y * n + x;
                    crate::canvas::lemma_index(x as int, y as int, n as int);
                    assert(y * n + x < n * n) by (nonlinear_arith)
                        requires
                            x < n,
                            y < n,
                    ;
                    assert(pixel == want[k as int]);
                }
                pixels.push(pixel);
                x = x + 1;
            }
            assert(y * n + n == (y + 1) * n) by (nonlinear_arith);
            y = y + 1;
        }
        assert(pixels@ =~= want) by {
            assert(y * n == n * n);
        }
        Some(Image { width: size, height: size, pixels })
    }
}

/// Decode a PNG and scale it to `size` square.
pub fn from_png(bytes: &[u8], size: i32) -> (r: Option<Image>)
    requires
        0 <= size,
    ensures
        image_opt_view(r) == png_image(bytes@, size),
        r matches Some(img) ==> img.wf(),
{
    match decode_png(bytes) {
        Some((buffer, width, height, channels)) => Image::from_frame(buffer.as_slice(), width, height, channels, size),
        None => None,
    }
}

/// The map a list of `(key, value)` pairs describes, later pairs winning.
pub open spec fn latest<K, V>(pairs: Seq<(K, V)>) -> Map<K, V>
    decreases pairs.len(),
{
    if pairs.len() == 0 {
        Map::empty()
    } else {
        latest(pairs.drop_last()).insert(pairs.last().0, pairs.last().1)
    }
}

/// The last pair with a key decides its value.
proof fn lemma_latest<K, V>(pairs: Seq<(K, V)>, key: K, j: int)
    requires
        0 <= j < pairs.len(),
        pairs[j].0 == key,
        forall|k: int| j < k < pairs.len() ==> #[trigger] pairs[k].0 != key,
    ensures
        latest(pairs).contains_key(key),
        latest(pairs)[key] == pairs[j].1,
    decreases pairs.len(),
{
    if j < pairs.len() - 1 {
        let prev = pairs.drop_last();
        assert forall|k: int| j < k < prev.len() implies #[trigger] prev[k].0 != key by {
            assert(prev[k] == pairs[k]);
        }
        lemma_latest(prev, key, j);
        assert(pairs.last().0 != key) by {
            assert(pairs[pairs.len() - 1].0 != key);
        }
    }
}

/// A key no pair has is not in the map.
proof fn lemma_latest_absent<K, V>(pairs: Seq<(K, V)>, key: K)
    requires
        forall|k: int| 0 <= k < pairs.len() ==> #[trigger] pairs[k].0 != key,
    ensures
        !latest(pairs).contains_key(key),
    decreases pairs.len(),
{
    if pairs.len() > 0 {
        let prev = pairs.drop_last();
        assert forall|k: int| 0 <= k < prev.len() implies #[trigger] prev[k].0 != key by {
            assert(prev[k] == pairs[k]);
        }
        lemma_latest_absent(prev, key);
        assert(pairs[pairs.len() - 1].0 != key);
    }
}

/// Icons already loaded, keyed by what was asked for.
pub struct Images {
    /// Each load by path and size; `None` records a file that failed to load, so a broken icon
    /// is not retried every frame.
    cache: Vec<(String, i32, Option<Image>)>,
    /// `Icon=` names resolved to files, including the ones that resolved to nothing.
    resolved: Vec<(String, Option<String>)>,
    /// The icon theme names are looked up in first; empty for none.
    theme: String,
}

/// The mathematical content of [`Images`]: what each `(path, size)` loaded to, and what each
/// `Icon=` name resolved to.
pub struct ImagesView {
    pub images: Map<(Seq<char>, i32), Option<ImageView>>,
    pub resolved: Map<Seq<char>, Option<Seq<char>>>,
    pub theme: Seq<char>,
}

spec fn cache_pairs(c: Seq<(String, i32, Option<Image>)>) -> Seq<((Seq<char>, i32), Option<ImageView>)> {
    c.map_values(|e: (String, i32, Option<Image>)| ((e.0@, e.1), image_opt_view(e.2)))
}

spec fn resolved_pairs(c: Seq<(String, Option<String>)>) -> Seq<(Seq<char>, Option<Seq<char>>)> {
    c.map_values(|e: (String, Option<String>)| (e.0@, crate::strings::opt_view(e.1)))
}

impl Images {
    #[verifier::type_invariant]
    spec fn loaded_well(self) -> bool {
        forall|i: int| 0 <= i < self.cache@.len() ==> ((#[trigger] self.cache@[i]).2 matches Some(img) ==> img.wf())
    }
}

impl View for Images {
    type V = ImagesView;

    closed spec fn view(&self) -> ImagesView {
        ImagesView {
            images: latest(cache_pairs(self.cache@)),
            resolved: latest(resolved_pairs(self.resolved@)),
            theme: self.theme@,
        }
    }
}

/// The view of an image reference that may be missing.
pub open spec fn image_ref_view(r: Option<&Image>) -> Option<ImageView> {
    match r {
        Some(img) => Some(img@),
        None => None,
    }
}

/// Whether an `Icon=` value names a file directly rather than a theme icon.
pub open spec fn is_absolute(icon: Seq<char>) -> bool {
    icon.len() > 0 && icon[0] == '/'
}

/// The image the cache already holds for `icon` at `size`: an absolute path is its own file,
/// anything else goes through what the name resolved to.
pub open spec fn known(v: ImagesView, icon: Seq<char>, size: i32) -> Option<ImageView> {
    let path = if icon.len() == 0 {
        None
    } else if is_absolute(icon) {
        Some(icon)
    } else if v.resolved.contains_key(icon) {
        v.resolved[icon]
    } else {
        None
    };
    match path {
        Some(p) => if v.images.contains_key((p, size)) {
            v.images[(p, size)]
        } else {
            None
        },
        None => None,
    }
}

impl Images {
    /// Nothing loaded, nothing resolved, and no theme named.
    pub fn new() -> (r: Images)
        ensures
            r@.images == Map::<(Seq<char>, i32), Option<ImageView>>::empty(),
            r@.resolved == Map::<Seq<char>, Option<Seq<char>>>::empty(),
            r@.theme == Seq::<char>::empty(),
    {
        let r = Images { cache: Vec::new(), resolved: Vec::new(), theme: String::new() };
        assert(cache_pairs(r.cache@) =~= Seq::empty());
        assert(resolved_pairs(r.resolved@) =~= Seq::empty());
        r
    }

    /// What loading `path` at `size` gave before: `None` when it has not been tried, and
    /// `Some(None)` when it failed.
    pub fn cached(&self, path: &str, size: i32) -> (r: Option<Option<&Image>>)
        ensures
            r is Some <==> self@.images.contains_key((path@, size)),
            r matches Some(o) ==> image_ref_view(o) == self@.images[(path@, size)],
            r matches Some(Some(img)) ==> img.wf(),
    {
        proof {
            use_type_invariant(self);
        }
        let ghost pairs = cache_pairs(self.cache@);
        let ghost key = (path@, size);
        let mut i = self.cache.len();
        while i > 0
            invariant
                i <= self.cache@.len(),
                pairs == cache_pairs(self.cache@),
                key == (path@, size),
                forall|k: int| i <= k < pairs.len() ==> #[trigger] pairs[k].0 != key,
                forall|k: int| 0 <= k < self.cache@.len() ==> ((#[trigger] self.cache@[k]).2 matches Some(img) ==> img.wf()),
            decreases i,
        {
            i = i - 1;
            let entry = &self.cache[i];
            if entry.1 == size && crate::strings::same(entry.0.as_str(), path) {
                proof {
                    lemma_latest(pairs, key, i as int);
                }
                let found = match &entry.2 {
                    Some(img) => Some(img),
                    None => None,
                };
                assert(self.cache@[i as int].2 matches Some(img) ==> img.wf());
                return Some(found);
            }
        }
        proof {
            lemma_latest_absent(pairs, key);
        }
        None
    }

    /// Record what loading `path` at `size` gave, failure included.
    pub fn remember(&mut self, path: &str, size: i32, loaded: Option<Image>)
        requires
            loaded matches Some(img) ==> img.wf(),
        ensures
            final(self)@.images == old(self)@.images.insert((path@, size), image_opt_view(loaded)),
            final(self)@.resolved == old(self)@.resolved,
            final(self)@.theme == old(self)@.theme,
    {
        let ghost before = cache_pairs(self.cache@);
        let entry = (crate::strings::string_of(crate::strings::chars_of(path).as_slice()), size, loaded);
        proof {
            use_type_invariant(&*self);
        }
        let mut cache: Vec<(String, i32, Option<Image>)> = Vec::new();
        std::mem::swap(&mut cache, &mut self.cache);
        cache.push(entry);
        assert(cache_pairs(cache@).drop_last() =~= before);
        self.cache = cache;
    }

    /// What the `Icon=` name `icon` resolved to before: `None` when it has not been looked
    /// up, and `Some(None)` when no file was found.
    pub fn resolution(&self, icon: &str) -> (r: Option<Option<String>>)
        ensures
            r is Some <==> self@.resolved.contains_key(icon@),
            r matches Some(o) ==> crate::strings::opt_view(o) == self@.resolved[icon@],
    {
        let ghost pairs = resolved_pairs(self.resolved@);
        let mut i = self.resolved.len();
        while i > 0
            invariant
                i <= self.resolved@.len(),
                pairs == resolved_pairs(self.resolved@),
                forall|k: int| i <= k < pairs.len() ==> #[trigger] pairs[k].0 != icon@,
            decreases i,
        {
            i = i - 1;
            if crate::strings::same(self.resolved[i].0.as_str(), icon) {
                proof {
                    lemma_latest(pairs, icon@, i as int);
                }
                return Some(crate::strings::copy_opt(&self.resolved[i].1));
            }
        }
        proof {
            lemma_latest_absent(pairs, icon@);
        }
        None
    }

    /// Record what the `Icon=` name `icon` resolved to, nothing included.
    pub fn remember_resolution(&mut self, icon: &str, found: Option<String>)
        ensures
            final(self)@.resolved == old(self)@.resolved.insert(icon@, crate::strings::opt_view(found)),
            final(self)@.images == old(self)@.images,
            final(self)@.theme == old(self)@.theme,
    {
        let ghost before = resolved_pairs(self.resolved@);
        let entry = (crate::strings::string_of(crate::strings::chars_of(icon).as_slice()), found);
        proof {
            use_type_invariant(&*self);
        }
        let mut resolved: Vec<(String, Option<String>)> = Vec::new();
        std::mem::swap(&mut resolved, &mut self.resolved);
        resolved.push(entry);
        assert(resolved_pairs(resolved@).drop_last() =~= before);
        self.resolved = resolved;
    }

    /// The image already loaded for an `Icon=` value at `size`, if any: an absolute path is
    /// taken as the file itself, anything else through what the name resolved to.
    pub fn get(&self, icon: &str, size: i32) -> (r: Option<&Image>)
        ensures
            image_ref_view(r) == known(self@, icon@, size),
            r matches Some(img) ==> img.wf(),
    {
        let chars = crate::strings::chars_of(icon);
        if chars.len() == 0 {
            return None;
        }
        if chars[0] == '/' {
            return match self.cached(icon, size) {
                Some(found) => found,
                None => None,
            };
        }
        match self.resolution(icon) {
            Some(Some(path)) => match self.cached(path.as_str(), size) {
                Some(found) => found,
                None => None,
            },
            _ => None,
        }
    }

    /// Forget everything loaded and resolved. Called when the icon size changes, which
    /// invalidates every entry.
    pub fn clear(&mut self)
        ensures
            final(self)@.images == Map::<(Seq<char>, i32), Option<ImageView>>::empty(),
            final(self)@.resolved == Map::<Seq<char>, Option<Seq<char>>>::empty(),
            final(self)@.theme == old(self)@.theme,
    {
        self.cache = Vec::new();
        self.resolved = Vec::new();
        assert(cache_pairs(self.cache@) =~= Seq::empty());
        assert(resolved_pairs(self.resolved@) =~= Seq::empty());
    }
}

impl Images {
    /// The icon theme to search first; empty for none.
    pub fn theme(&self) -> (r: &str)
        ensures
            r@ == self@.theme,
    {
        self.theme.as_str()
    }

    /// Set the icon theme to search first.
    ///
    /// A change forgets what was resolved and loaded: the names the old theme could not find
    /// are the ones a new theme might, so keeping them would make the setting appear to do
    /// nothing.
    pub fn set_theme(&mut self, theme: &str)
        ensures
            final(self)@.theme == theme@,
            old(self)@.theme == theme@ ==> final(self)@ == old(self)@,
            old(self)@.theme != theme@ ==> final(self)@.images == Map::<(Seq<char>, i32), Option<ImageView>>::empty()
                && final(self)@.resolved == Map::<Seq<char>, Option<Seq<char>>>::empty(),
    {
        if crate::strings::same(self.theme.as_str(), theme) {
            return;
        }
        proof {
            use_type_invariant(&*self);
        }
        self.theme = crate::strings::string_of(crate::strings::chars_of(theme).as_slice());
        self.clear();
    }
}

impl Default for Images {
    fn default() -> (r: Images)
        ensures
            r@.images == Map::<(Seq<char>, i32), Option<ImageView>>::empty(),
            r@.resolved == Map::<Seq<char>, Option<Seq<char>>>::empty(),
            r@.theme == Seq::<char>::empty(),
    {
        Images::new()
    }
}

/// Multiplying by white changes nothing: every channel scaled by 255 comes back as it was, so
/// the hover tint leaves artwork exactly as drawn.
pub proof fn law_white_tint_is_identity(p: u32)
    ensures
        tinted(p, 0xffff_ffff) == p,
{
    let a = be_byte(p, 0);
    let r = be_byte(p, 1);
    let g = be_byte(p, 2);
    let b = be_byte(p, 3);
    assert(be_byte(0xffff_ffffu32, 1) == 255 && be_byte(0xffff_ffffu32, 2) == 255 && be_byte(0xffff_ffffu32, 3) == 255) by (bit_vector);
    assert(0 <= r <= 255 && 0 <= g <= 255 && 0 <= b <= 255 && 0 <= a <= 255) by {
        assert(((p >> 24u32) & 0xff) <= 0xff && ((p >> 16u32) & 0xff) <= 0xff && ((p >> 8u32) & 0xff) <= 0xff && ((p >> 0u32) & 0xff) <= 0xff) by (bit_vector);
    }
    assert forall|c: int| 0 <= c <= 255 implies scaled(c, 255) == c by {
        assert((c * 255 + 127) / 255 == c) by (nonlinear_arith)
            requires
                0 <= c <= 255,
        ;
    }
    assert(scaled(r, 255) == r && scaled(g, 255) == g && scaled(b, 255) == b);
    let (a32, r32, g32, b32) = (a as u32, r as u32, g as u32, b as u32);
    assert(argb(a32, r32, g32, b32) == p) by (bit_vector)
        requires
            a32 == ((p >> 24u32) & 0xff),
            r32 == ((p >> 16u32) & 0xff),
            g32 == ((p >> 8u32) & 0xff),
            b32 == ((p >> 0u32) & 0xff),
    ;
}

/// A tint never changes what is drawn, only its colour: the alpha of every pixel survives.
pub proof fn law_tint_keeps_alpha(p: u32, tint: u32)
    ensures
        be_byte(tinted(p, tint), 0) == be_byte(p, 0),
{
    let a = be_byte(p, 0) as u32;
    let r = scaled(be_byte(p, 1), be_byte(tint, 1)) as u32;
    let g = scaled(be_byte(p, 2), be_byte(tint, 2)) as u32;
    let b = scaled(be_byte(p, 3), be_byte(tint, 3)) as u32;
    assert(a <= 255) by {
        assert(((p >> 24u32) & 0xff) <= 0xff) by (bit_vector);
    }
    assert forall|i: int| 1 <= i <= 3 implies 0 <= #[trigger] scaled(be_byte(p, i), be_byte(tint, i)) <= 255 by {
        let c = be_byte(p, i);
        let t = be_byte(tint, i);
        let sh = (24 - 8 * i) as u32;
        assert(((p >> sh) & 0xff) <= 0xff && ((tint >> sh) & 0xff) <= 0xff) by (bit_vector);
        assert(0 <= (c * t + 127) / 255 <= 255) by (nonlinear_arith)
            requires
                0 <= c <= 255,
                0 <= t <= 255,
        ;
    }
    assert(r <= 255 && g <= 255 && b <= 255) by {
        assert(0 <= scaled(be_byte(p, 1), be_byte(tint, 1)) <= 255);
        assert(0 <= scaled(be_byte(p, 2), be_byte(tint, 2)) <= 255);
        assert(0 <= scaled(be_byte(p, 3), be_byte(tint, 3)) <= 255);
    }
    assert(((argb(a, r, g, b) >> 24u32) & 0xff) == a) by (bit_vector)
        requires
            a <= 255,
            r <= 255,
            g <= 255,
            b <= 255,
    ;
}

/// What the cache gives back for a load is what was last recorded for it, a failure
/// included -- so a broken icon is not tried again -- and recording one load leaves every
/// other untouched.
pub proof fn law_cache_reads_back(
    v: ImagesView,
    path: Seq<char>,
    size: i32,
    loaded: Option<ImageView>,
    other: (Seq<char>, i32),
)
    requires
        other != (path, size),
    ensures
        ({
            let after = v.images.insert((path, size), loaded);
            &&& after.contains_key((path, size))
            &&& after[(path, size)] == loaded
            &&& after.contains_key(other) == v.images.contains_key(other)
            &&& v.images.contains_key(other) ==> after[other] == v.images[other]
        }),
{
}

} // verus!
