//! A drawing surface over a caller's buffer of 32-bit pixels: fills, strokes, straight-alpha
//! compositing, copies between surfaces and a clipping rectangle.
use vstd::prelude::*;

use crate::gfx::{edges_fit, fits_i32, intersection, max_int, min_int, Color, Rect};

verus! {

/// Byte order of a 32-bit pixel.
#[derive(Clone, Copy, Debug, PartialEq, Eq, Structural)]
pub enum PixelFormat {
    /// Not usable for drawing.
    Unknown,
    /// Red, green, blue, padding.
    Rgbx8888,
    /// Blue, green, red, padding.
    Bgrx8888,
}

/// Drawing surface: a buffer of 32-bit pixels with a row stride, a format and a clip.
pub struct Surface<'a> {
    pixels: &'a mut [u8],
    width: i32,
    height: i32,
    stride: i32,
    format: PixelFormat,
    clip: Rect,
}

/// What a surface holds: its bytes, its geometry in pixels, its format and its clip.
pub struct SurfaceView {
    pub pixels: Seq<u8>,
    pub width: int,
    pub height: int,
    pub stride: int,
    pub format: PixelFormat,
    pub clip: Rect,
}

impl<'a> View for Surface<'a> {
    type V = SurfaceView;

    closed spec fn view(&self) -> SurfaceView {
        SurfaceView {
            pixels: self.pixels@,
            width: self.width as int,
            height: self.height as int,
            stride: self.stride as int,
            format: self.format,
            clip: self.clip,
        }
    }
}

/// `(x, y)` lies in `r`.
pub open spec fn rect_has(r: Rect, x: int, y: int) -> bool {
    r.x <= x < r.x + r.w && r.y <= y < r.y + r.h
}

/// The intersection of `a` and `b` can be computed in 32-bit arithmetic.
pub open spec fn meets(a: Rect, b: Rect) -> bool {
    &&& edges_fit(a)
    &&& edges_fit(b)
    &&& fits_i32(min_int(a.x + a.w, b.x + b.w) - max_int(a.x as int, b.x as int))
    &&& fits_i32(min_int(a.y + a.h, b.y + b.h) - max_int(a.y as int, b.y as int))
}

/// The whole surface as a rectangle.
pub open spec fn bounds(v: SurfaceView) -> Rect {
    Rect { x: 0, y: 0, w: v.width as i32, h: v.height as i32 }
}

/// A clip as `set_clip` leaves it: never negative, and inside the surface where not empty.
pub open spec fn clip_ok(v: SurfaceView, c: Rect) -> bool {
    &&& c.x >= 0 && c.y >= 0 && c.w >= 0 && c.h >= 0
    &&& c.w > 0 ==> c.x + c.w <= v.width
    &&& c.h > 0 ==> c.y + c.h <= v.height
}

/// Geometry that the surface was accepted with; byte offsets fit in 32 bits.
pub open spec fn surface_ok(v: SurfaceView) -> bool {
    &&& 0 < v.width <= v.stride
    &&& 0 < v.height
    &&& v.stride * v.height * 4 <= v.pixels.len()
    &&& v.stride * v.height * 4 <= 0x8000_0000
    &&& v.format != PixelFormat::Unknown
    &&& clip_ok(v, v.clip)
}

/// `(x, y)` is a pixel of the surface.
pub open spec fn in_bounds(v: SurfaceView, x: int, y: int) -> bool {
    0 <= x < v.width && 0 <= y < v.height
}

/// First byte of pixel `(x, y)`.
pub open spec fn offset(v: SurfaceView, x: int, y: int) -> int {
    (y * v.stride + x) * 4
}

/// Row of the pixel that byte `i` belongs to.
pub open spec fn row_of(v: SurfaceView, i: int) -> int {
    (i / 4) / v.stride
}

/// Column (within the stride) of the pixel that byte `i` belongs to.
pub open spec fn col_of(v: SurfaceView, i: int) -> int {
    (i / 4) % v.stride
}

/// Bytes of colour `c` in format `f` (the padding byte is 0).
pub open spec fn encode(f: PixelFormat, c: Color) -> Seq<u8> {
    match f {
        PixelFormat::Rgbx8888 => seq![c.r, c.g, c.b, 0u8],
        PixelFormat::Bgrx8888 => seq![c.b, c.g, c.r, 0u8],
        PixelFormat::Unknown => seq![0u8, 0u8, 0u8, 0u8],
    }
}

/// Opaque colour of the pixel bytes `p0, p1, p2` in format `f`.
pub open spec fn decode(f: PixelFormat, p0: u8, p1: u8, p2: u8) -> Color {
    match f {
        PixelFormat::Rgbx8888 => Color { r: p0, g: p1, b: p2, a: 255 },
        PixelFormat::Bgrx8888 => Color { r: p2, g: p1, b: p0, a: 255 },
        PixelFormat::Unknown => Color { r: 0, g: 0, b: 0, a: 255 },
    }
}

/// Colour read at `(x, y)`; opaque black outside the surface.
pub open spec fn pixel(v: SurfaceView, x: int, y: int) -> Color {
    if in_bounds(v, x, y) {
        let o = offset(v, x, y);
        decode(v.format, v.pixels[o], v.pixels[o + 1], v.pixels[o + 2])
    } else {
        Color { r: 0, g: 0, b: 0, a: 255 }
    }
}

/// Straight-alpha mix of channel `s` over channel `d` with alpha `a`, rounded.
pub open spec fn mix(s: u8, d: u8, a: u8) -> u8 {
    ((s * a + d * (255 - a) + 127) / 255) as u8
}

/// What `c` leaves on a pixel of colour `d` (source over).
pub open spec fn shade(c: Color, d: Color) -> Color {
    if c.a == 255 {
        c
    } else {
        Color { r: mix(c.r, d.r, c.a), g: mix(c.g, d.g, c.a), b: mix(c.b, d.b, c.a), a: 255 }
    }
}

/// `p` with the four bytes at `o` replaced by `b`.
pub open spec fn write_px(p: Seq<u8>, o: int, b: Seq<u8>) -> Seq<u8> {
    Seq::new(p.len(), |i: int| if o <= i < o + 4 { b[i - o] } else { p[i] })
}

/// `v`'s bytes with every pixel `(x, y)` of the surface that `sel` picks set to `ink(x, y)`;
/// padding and bytes past the last row keep their value.
pub open spec fn paint(
    v: SurfaceView,
    sel: spec_fn(int, int) -> bool,
    ink: spec_fn(int, int) -> Seq<u8>,
) -> Seq<u8> {
    Seq::new(
        v.pixels.len(),
        |i: int|
            {
                let x = col_of(v, i);
                let y = row_of(v, i);
                if in_bounds(v, x, y) && sel(x, y) {
                    ink(x, y)[i % 4]
                } else {
                    v.pixels[i]
                }
            },
    )
}

/// `v` with its bytes replaced by `p`.
pub open spec fn with_pixels(v: SurfaceView, p: Seq<u8>) -> SurfaceView {
    SurfaceView { pixels: p, ..v }
}

/// Bytes after `put(x, y, c)`.
pub open spec fn put_spec(v: SurfaceView, x: int, y: int, c: Color) -> Seq<u8> {
    if rect_has(v.clip, x, y) {
        write_px(v.pixels, offset(v, x, y), encode(v.format, c))
    } else {
        v.pixels
    }
}

/// Bytes after `blend(x, y, c)`.
pub open spec fn blend_spec(v: SurfaceView, x: int, y: int, c: Color) -> Seq<u8> {
    if !rect_has(v.clip, x, y) || c.a == 0 {
        v.pixels
    } else {
        write_px(v.pixels, offset(v, x, y), encode(v.format, shade(c, pixel(v, x, y))))
    }
}

/// What filling with `c` leaves on each pixel of `v`.
pub open spec fn fill_ink(v: SurfaceView, c: Color) -> spec_fn(int, int) -> Seq<u8> {
    |x: int, y: int| encode(v.format, shade(c, pixel(v, x, y)))
}

/// Bytes after `fill_rect(rect, c)`: each pixel of `rect` within the clip is shaded by `c`.
pub open spec fn fill_spec(v: SurfaceView, rect: Rect, c: Color) -> Seq<u8> {
    let r = intersection(rect, v.clip);
    if r.w <= 0 || r.h <= 0 || c.a == 0 {
        v.pixels
    } else {
        paint(v, |x: int, y: int| rect_has(r, x, y), fill_ink(v, c))
    }
}

/// Pixels of `r` up to, and not including, `(x, y)` in row order.
pub open spec fn before(r: Rect, x: int, y: int) -> spec_fn(int, int) -> bool {
    |a: int, b: int| rect_has(r, a, b) && (b < y || (b == y && a < x))
}

/// The four one-pixel edges of `rect`: top, bottom, left, right.
pub open spec fn edge(rect: Rect, k: int) -> Rect {
    if k == 0 {
        Rect { h: 1, ..rect }
    } else if k == 1 {
        Rect { y: (rect.y + rect.h - 1) as i32, h: 1, ..rect }
    } else if k == 2 {
        Rect { w: 1, ..rect }
    } else {
        Rect { x: (rect.x + rect.w - 1) as i32, w: 1, ..rect }
    }
}

/// The edges of `rect` can be computed and cut by `clip` in 32-bit arithmetic.
pub open spec fn edges_meet(rect: Rect, clip: Rect) -> bool {
    &&& fits_i32(rect.y + rect.h - 1)
    &&& fits_i32(rect.x + rect.w - 1)
    &&& meets(edge(rect, 0), clip)
    &&& meets(edge(rect, 1), clip)
    &&& meets(edge(rect, 2), clip)
    &&& meets(edge(rect, 3), clip)
}

/// Bytes after `stroke_rect(rect, c)`: the four edges filled one after the other.
pub open spec fn stroke_spec(v: SurfaceView, rect: Rect, c: Color) -> Seq<u8> {
    let v1 = with_pixels(v, fill_spec(v, edge(rect, 0), c));
    let v2 = with_pixels(v1, fill_spec(v1, edge(rect, 1), c));
    let v3 = with_pixels(v2, fill_spec(v2, edge(rect, 2), c));
    fill_spec(v3, edge(rect, 3), c)
}

/// Pixels of the destination that a copy of `r` (a rectangle of the source) to `(dx, dy)`
/// reaches inside the clip.
pub open spec fn blit_sel(v: SurfaceView, r: Rect, dx: int, dy: int) -> spec_fn(int, int) -> bool {
    |a: int, b: int| rect_has(v.clip, a, b) && 0 <= a - dx < r.w && 0 <= b - dy < r.h
}

/// The source pixel that lands on `(a, b)`, in the destination's format.
pub open spec fn blit_ink(v: SurfaceView, s: SurfaceView, r: Rect, dx: int, dy: int) -> spec_fn(
    int,
    int,
) -> Seq<u8> {
    |a: int, b: int| encode(v.format, pixel(s, r.x + a - dx, r.y + b - dy))
}

/// Bytes after `blit(src, src_rect, dx, dy)`.
pub open spec fn blit_spec(v: SurfaceView, s: SurfaceView, src_rect: Rect, dx: int, dy: int) -> Seq<u8> {
    let r = intersection(src_rect, bounds(s));
    paint(v, blit_sel(v, r, dx, dy), blit_ink(v, s, r, dx, dy))
}

/// A non-empty cut of `rect` by the clip lies inside the clip and the surface.
proof fn lemma_cut_inside(v: SurfaceView, rect: Rect)
    requires
        surface_ok(v),
        meets(rect, v.clip),
        intersection(rect, v.clip).w > 0,
        intersection(rect, v.clip).h > 0,
    ensures
        ({
            let r = intersection(rect, v.clip);
            &&& 0 <= r.x && r.x + r.w <= v.width
            &&& 0 <= r.y && r.y + r.h <= v.height
            &&& forall|a: int, b: int| rect_has(r, a, b) ==> rect_has(v.clip, a, b) && in_bounds(v, a, b)
        }),
{
}

/// Byte `i` lies in pixel `(col_of(i), row_of(i))`, at position `i % 4` of it.
proof fn lemma_byte_pixel(v: SurfaceView, i: int)
    requires
        v.stride > 0,
        i >= 0,
    ensures
        0 <= col_of(v, i) < v.stride,
        row_of(v, i) >= 0,
        offset(v, col_of(v, i), row_of(v, i)) + i % 4 == i,
        0 <= i % 4 < 4,
{
    let p = i / 4;
    vstd::arithmetic::div_mod::lemma_fundamental_div_mod(i, 4);
    vstd::arithmetic::div_mod::lemma_fundamental_div_mod(p, v.stride);
    assert(p >= 0);
    assert(p / v.stride >= 0) by (nonlinear_arith)
        requires
            p >= 0,
            v.stride > 0,
    ;
    assert(p == v.stride * (p / v.stride) + p % v.stride);
    assert(offset(v, col_of(v, i), row_of(v, i)) == ((p / v.stride) * v.stride + p % v.stride) * 4);
    assert((p / v.stride) * v.stride == v.stride * (p / v.stride)) by (nonlinear_arith);
}

/// The bytes of pixel `(x, y)` map back to `(x, y)`.
proof fn lemma_pixel_bytes(v: SurfaceView, x: int, y: int, k: int)
    requires
        0 <= x < v.stride,
        0 <= y,
        0 <= k < 4,
    ensures
        col_of(v, offset(v, x, y) + k) == x,
        row_of(v, offset(v, x, y) + k) == y,
        (offset(v, x, y) + k) % 4 == k,
{
    let p = y * v.stride + x;
    vstd::arithmetic::div_mod::lemma_fundamental_div_mod_converse(p * 4 + k, 4, p, k);
    vstd::arithmetic::div_mod::lemma_fundamental_div_mod_converse(p, v.stride, y, x);
}

/// Pixel `(x, y)` of a well-formed surface lies inside the buffer and its offset fits in 32 bits.
proof fn lemma_offset_fits(v: SurfaceView, x: int, y: int)
    requires
        surface_ok(v),
        in_bounds(v, x, y),
    ensures
        0 <= y * v.stride + x,
        0 <= offset(v, x, y),
        offset(v, x, y) + 4 <= v.stride * v.height * 4,
        offset(v, x, y) + 4 <= v.pixels.len(),
        offset(v, x, y) + 4 <= 0x8000_0000,
{
    assert(0 <= y * v.stride) by (nonlinear_arith)
        requires
            0 <= y,
            0 < v.stride,
    ;
    assert(y * v.stride + v.stride <= v.stride * v.height) by (nonlinear_arith)
        requires
            y + 1 <= v.height,
            0 < v.stride,
    ;
}

/// Painting one more pixel extends the selection by that pixel.
pub(crate) proof fn lemma_paint_step(
    v: SurfaceView,
    sel1: spec_fn(int, int) -> bool,
    sel2: spec_fn(int, int) -> bool,
    ink: spec_fn(int, int) -> Seq<u8>,
    x: int,
    y: int,
)
    requires
        surface_ok(v),
        in_bounds(v, x, y),
        ink(x, y).len() == 4,
        forall|a: int, b: int| #[trigger] sel2(a, b) == (sel1(a, b) || (a == x && b == y)),
    ensures
        write_px(paint(v, sel1, ink), offset(v, x, y), ink(x, y)) == paint(v, sel2, ink),
{
    let o = offset(v, x, y);
    lemma_offset_fits(v, x, y);
    let lhs = write_px(paint(v, sel1, ink), o, ink(x, y));
    let rhs = paint(v, sel2, ink);
    assert forall|i: int| 0 <= i < lhs.len() implies lhs[i] == rhs[i] by {
        lemma_byte_pixel(v, i);
        if o <= i < o + 4 {
            lemma_pixel_bytes(v, x, y, i - o);
        } else {
            if col_of(v, i) == x && row_of(v, i) == y {
                assert(false);
            }
        }
    }
    assert(lhs =~= rhs);
}

/// Painting an empty selection changes nothing.
pub(crate) proof fn lemma_paint_none(v: SurfaceView, sel: spec_fn(int, int) -> bool, ink: spec_fn(int, int) -> Seq<u8>)
    requires
        forall|a: int, b: int| !#[trigger] sel(a, b),
    ensures
        paint(v, sel, ink) == v.pixels,
{
    assert(paint(v, sel, ink) =~= v.pixels);
}

/// Two selections that agree on every pixel paint the same bytes.
pub(crate) proof fn lemma_paint_same(
    v: SurfaceView,
    sel1: spec_fn(int, int) -> bool,
    sel2: spec_fn(int, int) -> bool,
    ink: spec_fn(int, int) -> Seq<u8>,
)
    requires
        forall|a: int, b: int| in_bounds(v, a, b) ==> #[trigger] sel1(a, b) == sel2(a, b),
    ensures
        paint(v, sel1, ink) == paint(v, sel2, ink),
{
    assert(paint(v, sel1, ink) =~= paint(v, sel2, ink));
}

/// A pixel that the selection leaves out reads as before.
pub(crate) proof fn lemma_paint_keeps(
    v: SurfaceView,
    sel: spec_fn(int, int) -> bool,
    ink: spec_fn(int, int) -> Seq<u8>,
    x: int,
    y: int,
)
    requires
        surface_ok(v),
        in_bounds(v, x, y),
        !sel(x, y),
    ensures
        pixel(with_pixels(v, paint(v, sel, ink)), x, y) == pixel(v, x, y),
{
    let o = offset(v, x, y);
    lemma_offset_fits(v, x, y);
    lemma_pixel_bytes(v, x, y, 0);
    lemma_pixel_bytes(v, x, y, 1);
    lemma_pixel_bytes(v, x, y, 2);
}

/// Law: what `put` writes inside the clip is read back by `get` (as an opaque colour), and
/// every other pixel reads as before.
pub proof fn lemma_put_then_get(v: SurfaceView, x: int, y: int, c: Color, x2: int, y2: int)
    requires
        surface_ok(v),
        rect_has(v.clip, x, y),
    ensures
        pixel(with_pixels(v, put_spec(v, x, y, c)), x, y) == (Color { r: c.r, g: c.g, b: c.b, a: 255 }),
        (x2 != x || y2 != y) ==> pixel(with_pixels(v, put_spec(v, x, y, c)), x2, y2) == pixel(v, x2, y2),
{
    let sel = |a: int, b: int| a == x && b == y;
    let ink = |a: int, b: int| encode(v.format, c);
    lemma_paint_step(v, |a: int, b: int| false, sel, ink, x, y);
    lemma_paint_none(v, |a: int, b: int| false, ink);
    lemma_offset_fits(v, x, y);
    lemma_pixel_bytes(v, x, y, 0);
    lemma_pixel_bytes(v, x, y, 1);
    lemma_pixel_bytes(v, x, y, 2);
    if (x2 != x || y2 != y) && in_bounds(v, x2, y2) {
        lemma_paint_keeps(v, sel, ink, x2, y2);
    }
}

/// Law: filling never writes a padding byte at the end of a row, nor a byte past the last row.
pub proof fn lemma_fill_keeps_padding(v: SurfaceView, rect: Rect, c: Color, i: int)
    requires
        surface_ok(v),
        0 <= i < v.pixels.len(),
        !in_bounds(v, col_of(v, i), row_of(v, i)),
    ensures
        fill_spec(v, rect, c)[i] == v.pixels[i],
{
}

impl<'a> Surface<'a> {
    /// The surface is as `new` accepted it.
    pub open spec fn wf(&self) -> bool {
        surface_ok(self@)
    }

    /// Makes a surface over `pixels`, which must hold `stride * height` pixels of 4 bytes.
    /// `None` if the format is unknown, a dimension is 0, the stride is narrower than the
    /// width, or the buffer is too small.
    pub fn new(pixels: &'a mut [u8], width: u32, height: u32, stride: u32, format: PixelFormat) -> (r:
        Option<Self>)
        requires
            stride * height * 4 <= old(pixels)@.len() ==> stride * height * 4 <= 0x8000_0000,
        ensures
            r is Some <==> (format != PixelFormat::Unknown && width > 0 && height > 0 && stride
                >= width && stride * height * 4 <= old(pixels)@.len()),
            r matches Some(s) ==> {
                &&& s.wf()
                &&& s@.pixels == old(pixels)@
                &&& s@.width == width && s@.height == height && s@.stride == stride
                &&& s@.format == format
                &&& s@.clip == bounds(s@)
            },
    {
        if format == PixelFormat::Unknown || width == 0 || height == 0 || stride < width {
            return None;
        }
        assert((stride as int) * (height as int) <= 0xffff_ffff * 0xffff_ffff) by (nonlinear_arith)
            requires
                stride <= 0xffff_ffff,
                height <= 0xffff_ffff,
        ;
        let need: u128 = (stride as u128) * (height as u128) * 4;
        if need > pixels.len() as u128 {
            return None;
        }
        assert(stride * 1 <= stride * height && height * 1 <= stride * height) by (nonlinear_arith)
            requires
                height >= 1,
                stride >= 1,
        ;
        let w = width as i32;
        let h = height as i32;
        Some(Surface { pixels, width: w, height: h, stride: stride as i32, format, clip: Rect::new(0, 0, w, h) })
    }

    /// Width in pixels.
    pub fn width(&self) -> (r: i32)
        ensures
            r == self@.width,
    {
        self.width
    }

    /// Height in pixels.
    pub fn height(&self) -> (r: i32)
        ensures
            r == self@.height,
    {
        self.height
    }

    /// Sets the clip to `clip` cut down to the surface.
    pub fn set_clip(&mut self, clip: Rect)
        requires
            old(self).wf(),
            edges_fit(clip),
        ensures
            final(self).wf(),
            final(self)@ == (SurfaceView { clip: intersection(clip, bounds(old(self)@)), ..old(self)@ }),
    {
        let b = Rect::new(0, 0, self.width, self.height);
        self.clip = clip.intersect(&b);
    }

    /// Clips to the whole surface again.
    pub fn reset_clip(&mut self)
        requires
            old(self).wf(),
        ensures
            final(self).wf(),
            final(self)@ == (SurfaceView { clip: bounds(old(self)@), ..old(self)@ }),
    {
        self.clip = Rect::new(0, 0, self.width, self.height);
    }

    /// The current clip.
    pub fn clip(&self) -> (r: Rect)
        ensures
            r == self@.clip,
    {
        self.clip
    }

    fn offset(&self, x: i32, y: i32) -> (o: usize)
        requires
            self.wf(),
            in_bounds(self@, x as int, y as int),
        ensures
            o == offset(self@, x as int, y as int),
            o + 4 <= self@.pixels.len(),
    {
        proof {
            lemma_offset_fits(self@, x as int, y as int);
        }
        ((y * self.stride + x) * 4) as usize
    }

    fn encode(&self, c: Color) -> (b: [u8; 4])
        ensures
            b@ == encode(self@.format, c),
    {
        let b = match self.format {
            PixelFormat::Rgbx8888 => [c.r, c.g, c.b, 0u8],
            PixelFormat::Bgrx8888 => [c.b, c.g, c.r, 0u8],
            PixelFormat::Unknown => [0u8, 0u8, 0u8, 0u8],
        };
        assert(b@ =~= encode(self@.format, c));
        b
    }

    fn store(&mut self, o: usize, b: [u8; 4])
        requires
            o + 4 <= old(self)@.pixels.len(),
        ensures
            final(self)@ == with_pixels(old(self)@, write_px(old(self)@.pixels, o as int, b@)),
    {
        self.pixels[o] = b[0];
        self.pixels[o + 1] = b[1];
        self.pixels[o + 2] = b[2];
        self.pixels[o + 3] = b[3];
        assert(self@.pixels =~= write_px(old(self)@.pixels, o as int, b@));
    }

    /// Reads a pixel (opaque black outside the surface).
    pub fn get(&self, x: i32, y: i32) -> (c: Color)
        requires
            self.wf(),
        ensures
            c == pixel(self@, x as int, y as int),
    {
        if x < 0 || y < 0 || x >= self.width || y >= self.height {
            return Color::rgb(0, 0, 0);
        }
        let o = self.offset(x, y);
        let (p0, p1, p2) = (self.pixels[o], self.pixels[o + 1], self.pixels[o + 2]);
        match self.format {
            PixelFormat::Rgbx8888 => Color::rgb(p0, p1, p2),
            PixelFormat::Bgrx8888 => Color::rgb(p2, p1, p0),
            PixelFormat::Unknown => Color::rgb(0, 0, 0),
        }
    }

    /// Writes an opaque pixel (inside the clip only).
    pub fn put(&mut self, x: i32, y: i32, c: Color)
        requires
            old(self).wf(),
        ensures
            final(self).wf(),
            final(self)@ == with_pixels(old(self)@, put_spec(old(self)@, x as int, y as int, c)),
    {
        if !self.clip.contains(x, y) {
            return;
        }
        let px = self.encode(c);
        let o = self.offset(x, y);
        self.store(o, px);
    }
}

fn mix_channel(s: u8, d: u8, a: u32) -> (m: u8)
    requires
        a <= 255,
    ensures
        m == mix(s, d, a as u8),
{
    assert(s * a + d * (255 - a) <= 255 * 255) by (nonlinear_arith)
        requires
            s <= 255,
            d <= 255,
            a <= 255,
    ;
    (((s as u32) * a + (d as u32) * (255 - a) + 127) / 255) as u8
}

impl<'a> Surface<'a> {
    /// Composes `c` over the pixel at `(x, y)` with straight alpha, source over (inside the
    /// clip only; alpha 0 leaves it, alpha 255 overwrites it).
    pub fn blend(&mut self, x: i32, y: i32, c: Color)
        requires
            old(self).wf(),
        ensures
            final(self).wf(),
            final(self)@ == with_pixels(old(self)@, blend_spec(old(self)@, x as int, y as int, c)),
    {
        if !self.clip.contains(x, y) || c.a == 0 {
            return;
        }
        if c.a == 255 {
            self.put(x, y, c);
            return;
        }
        let dst = self.get(x, y);
        let a = c.a as u32;
        let out = Color::rgb(mix_channel(c.r, dst.r, a), mix_channel(c.g, dst.g, a), mix_channel(c.b, dst.b, a));
        self.put(x, y, out);
    }

    /// Fills the non-empty rectangle `r`, which lies inside the clip, with the opaque `c`.
    fn fill_opaque(&mut self, r: Rect, c: Color)
        requires
            old(self).wf(),
            c.a == 255,
            r.w > 0 && r.h > 0,
            0 <= r.x && r.x + r.w <= old(self)@.width,
            0 <= r.y && r.y + r.h <= old(self)@.height,
        ensures
            final(self)@ == with_pixels(
                old(self)@,
                paint(old(self)@, |a: int, b: int| rect_has(r, a, b), fill_ink(old(self)@, c)),
            ),
    {
        let ghost v0 = self@;
        let ghost ink = fill_ink(v0, c);
        let px = self.encode(c);
        let mut y = r.y;
        proof {
            lemma_paint_none(v0, before(r, r.x as int, y as int), ink);
        }
        while y < r.y + r.h
            invariant
                surface_ok(v0),
                ink == fill_ink(v0, c),
                px@ == encode(v0.format, c),
                c.a == 255,
                r.w > 0 && r.h > 0,
                0 <= r.x && r.x + r.w <= v0.width,
                0 <= r.y && r.y + r.h <= v0.height,
                r.y <= y <= r.y + r.h,
                self@ == with_pixels(v0, paint(v0, before(r, r.x as int, y as int), ink)),
            decreases r.y + r.h - y,
        {
            let mut o = self.offset(r.x, y);
            let mut k: i32 = 0;
            while k < r.w
                invariant
                    surface_ok(v0),
                    ink == fill_ink(v0, c),
                    px@ == encode(v0.format, c),
                    c.a == 255,
                    r.w > 0 && r.h > 0,
                    0 <= r.x && r.x + r.w <= v0.width,
                    0 <= r.y && r.y + r.h <= v0.height,
                    r.y <= y < r.y + r.h,
                    0 <= k <= r.w,
                    k < r.w ==> o == offset(v0, r.x + k, y as int),
                    self@ == with_pixels(v0, paint(v0, before(r, r.x + k, y as int), ink)),
                decreases r.w - k,
            {
                let ghost x = r.x + k;
                proof {
                    lemma_offset_fits(v0, x, y as int);
                    lemma_paint_step(v0, before(r, x, y as int), before(r, x + 1, y as int), ink, x, y as int);
                }
                self.store(o, px);
                k = k + 1;
                if k < r.w {
                    o = o + 4;
                }
            }
            proof {
                lemma_paint_same(v0, before(r, r.x + r.w, y as int), before(r, r.x as int, y + 1), ink);
            }
            y = y + 1;
        }
        proof {
            lemma_paint_same(v0, before(r, r.x as int, y as int), |a: int, b: int| rect_has(r, a, b), ink);
        }
    }

    /// Composes `c` over every pixel of the non-empty rectangle `r`, which lies inside the clip.
    fn fill_blend(&mut self, r: Rect, c: Color)
        requires
            old(self).wf(),
            c.a != 0,
            r.w > 0 && r.h > 0,
            0 <= r.x && r.x + r.w <= old(self)@.width,
            0 <= r.y && r.y + r.h <= old(self)@.height,
            forall|a: int, b: int| rect_has(r, a, b) ==> rect_has(old(self)@.clip, a, b),
        ensures
            final(self)@ == with_pixels(
                old(self)@,
                paint(old(self)@, |a: int, b: int| rect_has(r, a, b), fill_ink(old(self)@, c)),
            ),
    {
        let ghost v0 = self@;
        let ghost ink = fill_ink(v0, c);
        let mut y = r.y;
        proof {
            lemma_paint_none(v0, before(r, r.x as int, y as int), ink);
        }
        while y < r.y + r.h
            invariant
                surface_ok(v0),
                ink == fill_ink(v0, c),
                c.a != 0,
                r.w > 0 && r.h > 0,
                0 <= r.x && r.x + r.w <= v0.width,
                0 <= r.y && r.y + r.h <= v0.height,
                forall|a: int, b: int| rect_has(r, a, b) ==> rect_has(v0.clip, a, b),
                r.y <= y <= r.y + r.h,
                self@ == with_pixels(v0, paint(v0, before(r, r.x as int, y as int), ink)),
            decreases r.y + r.h - y,
        {
            let mut x = r.x;
            while x < r.x + r.w
                invariant
                    surface_ok(v0),
                    ink == fill_ink(v0, c),
                    c.a != 0,
                    r.w > 0 && r.h > 0,
                    0 <= r.x && r.x + r.w <= v0.width,
                    0 <= r.y && r.y + r.h <= v0.height,
                    forall|a: int, b: int| rect_has(r, a, b) ==> rect_has(v0.clip, a, b),
                    r.y <= y < r.y + r.h,
                    r.x <= x <= r.x + r.w,
                    self@ == with_pixels(v0, paint(v0, before(r, x as int, y as int), ink)),
                decreases r.x + r.w - x,
            {
                proof {
                    assert(rect_has(r, x as int, y as int));
                    lemma_paint_keeps(v0, before(r, x as int, y as int), ink, x as int, y as int);
                    lemma_paint_step(v0, before(r, x as int, y as int), before(r, x + 1, y as int), ink, x as int, y as int);
                }
                self.blend(x, y, c);
                x = x + 1;
            }
            proof {
                lemma_paint_same(v0, before(r, r.x + r.w, y as int), before(r, r.x as int, y + 1), ink);
            }
            y = y + 1;
        }
        proof {
            lemma_paint_same(v0, before(r, r.x as int, y as int), |a: int, b: int| rect_has(r, a, b), ink);
        }
    }

    /// Fills `rect`, cut by the clip, with `c`: opaque colours are written, others composed.
    pub fn fill_rect(&mut self, rect: Rect, c: Color)
        requires
            old(self).wf(),
            meets(rect, old(self)@.clip),
        ensures
            final(self).wf(),
            final(self)@ == with_pixels(old(self)@, fill_spec(old(self)@, rect, c)),
    {
        let r = rect.intersect(&self.clip);
        if r.is_empty() || c.a == 0 {
            return;
        }
        proof {
            lemma_cut_inside(self@, rect);
        }
        if c.a == 255 {
            self.fill_opaque(r, c);
        } else {
            self.fill_blend(r, c);
        }
    }

    /// Fills the whole surface with `c`, whatever the clip.
    pub fn clear(&mut self, c: Color)
        requires
            old(self).wf(),
        ensures
            final(self).wf(),
            final(self)@ == with_pixels(
                old(self)@,
                fill_spec(SurfaceView { clip: bounds(old(self)@), ..old(self)@ }, bounds(old(self)@), c),
            ),
    {
        let saved = self.clip;
        self.clip = Rect::new(0, 0, self.width, self.height);
        self.fill_rect(Rect::new(0, 0, self.width, self.height), c);
        self.clip = saved;
    }

    /// Draws the 1-pixel outline of `rect`: its top, bottom, left and right edges in turn.
    pub fn stroke_rect(&mut self, rect: Rect, c: Color)
        requires
            old(self).wf(),
            edges_meet(rect, old(self)@.clip),
        ensures
            final(self).wf(),
            final(self)@ == with_pixels(old(self)@, stroke_spec(old(self)@, rect, c)),
    {
        self.fill_rect(Rect::new(rect.x, rect.y, rect.w, 1), c);
        self.fill_rect(Rect::new(rect.x, rect.y + rect.h - 1, rect.w, 1), c);
        self.fill_rect(Rect::new(rect.x, rect.y, 1, rect.h), c);
        self.fill_rect(Rect::new(rect.x + rect.w - 1, rect.y, 1, rect.h), c);
    }

    /// Copies the part of `src_rect` that lies in `src` to `(dx, dy)` on this surface,
    /// converting between formats; only pixels inside this surface's clip change.
    pub fn blit(&mut self, src: &Surface<'_>, src_rect: Rect, dx: i32, dy: i32)
        requires
            old(self).wf(),
            src.wf(),
            meets(src_rect, bounds(src@)),
            ({
                let r = intersection(src_rect, bounds(src@));
                r.w > 0 && r.h > 0 ==> fits_i32(dx + r.w - 1) && fits_i32(dy + r.h - 1)
            }),
        ensures
            final(self).wf(),
            final(self)@ == with_pixels(old(self)@, blit_spec(old(self)@, src@, src_rect, dx as int, dy as int)),
    {
        let sr = src_rect.intersect(&Rect::new(0, 0, src.width, src.height));
        let ghost v0 = self@;
        let ghost sel = blit_sel(v0, sr, dx as int, dy as int);
        let ghost ink = blit_ink(v0, src@, sr, dx as int, dy as int);
        let ghost done = |a: int, b: int| sel(a, b) && (b - dy < 0);
        proof {
            lemma_paint_none(v0, done, ink);
        }
        let mut row: i32 = 0;
        while row < sr.h
            invariant
                surface_ok(v0),
                src.wf(),
                sr == intersection(src_rect, bounds(src@)),
                sr.w > 0 && sr.h > 0 ==> fits_i32(dx + sr.w - 1) && fits_i32(dy + sr.h - 1),
                sel == blit_sel(v0, sr, dx as int, dy as int),
                ink == blit_ink(v0, src@, sr, dx as int, dy as int),
                0 <= row && (sr.h > 0 ==> row <= sr.h),
                self@ == with_pixels(v0, paint(v0, |a: int, b: int| sel(a, b) && b - dy < row, ink)),
            decreases sr.h - row,
        {
            let mut col: i32 = 0;
            proof {
                lemma_paint_same(
                    v0,
                    |a: int, b: int| sel(a, b) && b - dy < row,
                    |a: int, b: int| sel(a, b) && (b - dy < row || (b - dy == row && a - dx < col)),
                    ink,
                );
            }
            while col < sr.w
                invariant
                    surface_ok(v0),
                    src.wf(),
                    sr == intersection(src_rect, bounds(src@)),
                    sr.w > 0 && sr.h > 0 ==> fits_i32(dx + sr.w - 1) && fits_i32(dy + sr.h - 1),
                    sel == blit_sel(v0, sr, dx as int, dy as int),
                    ink == blit_ink(v0, src@, sr, dx as int, dy as int),
                    0 <= row < sr.h,
                    0 <= col && (sr.w > 0 ==> col <= sr.w),
                    self@ == with_pixels(
                        v0,
                        paint(v0, |a: int, b: int| sel(a, b) && (b - dy < row || (b - dy == row && a - dx < col)), ink),
                    ),
                decreases sr.w - col,
            {
                let ghost a = dx + col;
                let ghost b = dy + row;
                let ghost s1 = |p: int, q: int| sel(p, q) && (q - dy < row || (q - dy == row && p - dx < col));
                let ghost s2 = |p: int, q: int| sel(p, q) && (q - dy < row || (q - dy == row && p - dx < col + 1));
                let sc = src.get(sr.x + col, sr.y + row);
                proof {
                    if rect_has(v0.clip, a, b) {
                        lemma_paint_step(v0, s1, s2, ink, a, b);
                    } else {
                        lemma_paint_same(v0, s1, s2, ink);
                    }
                }
                self.blend(dx + col, dy + row, sc);
                col = col + 1;
            }
            proof {
                lemma_paint_same(
                    v0,
                    |a: int, b: int| sel(a, b) && (b - dy < row || (b - dy == row && a - dx < col)),
                    |a: int, b: int| sel(a, b) && b - dy < row + 1,
                    ink,
                );
            }
            row = row + 1;
        }
        proof {
            lemma_paint_same(v0, |a: int, b: int| sel(a, b) && b - dy < row, sel, ink);
        }
    }
}

} // verus!
