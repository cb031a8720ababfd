//! 2D drawing values: colours, rectangles and the size of text set in the 8x8 font.
pub mod surface;
pub mod text;
pub mod ui;

pub use surface::{PixelFormat, Surface};

use vstd::prelude::*;

verus! {

/// RGBA colour, 8 bits per channel (straight alpha).
#[derive(Clone, Copy, Debug, PartialEq, Eq, Structural)]
pub struct Color {
    /// Red.
    pub r: u8,
    /// Green.
    pub g: u8,
    /// Blue.
    pub b: u8,
    /// Alpha (255 = opaque).
    pub a: u8,
}

impl Color {
    /// Opaque black.
    pub fn black() -> (c: Color)
        ensures
            c == (Color { r: 0, g: 0, b: 0, a: 255 }),
    {
        Color { r: 0, g: 0, b: 0, a: 255 }
    }

    /// Opaque white.
    pub fn white() -> (c: Color)
        ensures
            c == (Color { r: 255, g: 255, b: 255, a: 255 }),
    {
        Color { r: 255, g: 255, b: 255, a: 255 }
    }

    /// Fully transparent.
    pub fn transparent() -> (c: Color)
        ensures
            c == (Color { r: 0, g: 0, b: 0, a: 0 }),
    {
        Color { r: 0, g: 0, b: 0, a: 0 }
    }

    /// Opaque colour.
    pub fn rgb(r: u8, g: u8, b: u8) -> (c: Self)
        ensures
            c == (Color { r, g, b, a: 255 }),
    {
        Color { r, g, b, a: 255 }
    }

    /// Colour with alpha.
    pub fn rgba(r: u8, g: u8, b: u8, a: u8) -> (c: Self)
        ensures
            c == (Color { r, g, b, a }),
    {
        Color { r, g, b, a }
    }
}

/// Rectangle in pixels (origin at the top left).
#[derive(Clone, Copy, Debug, PartialEq, Eq, Structural)]
pub struct Rect {
    /// Left column.
    pub x: i32,
    /// Top row.
    pub y: i32,
    /// Width.
    pub w: i32,
    /// Height.
    pub h: i32,
}

pub open spec fn max_int(a: int, b: int) -> int {
    if a >= b { a } else { b }
}

pub open spec fn min_int(a: int, b: int) -> int {
    if a <= b { a } else { b }
}

pub open spec fn fits_i32(v: int) -> bool {
    i32::MIN <= v <= i32::MAX
}

/// The intersection of `a` and `b`, with width and height at least 0.
pub open spec fn intersection(a: Rect, b: Rect) -> Rect {
    let x0 = max_int(a.x as int, b.x as int);
    let y0 = max_int(a.y as int, b.y as int);
    let x1 = min_int(a.x + a.w, b.x + b.w);
    let y1 = min_int(a.y + a.h, b.y + b.h);
    Rect { x: x0 as i32, y: y0 as i32, w: max_int(x1 - x0, 0) as i32, h: max_int(y1 - y0, 0) as i32 }
}

/// The edges of `r` are representable.
pub open spec fn edges_fit(r: Rect) -> bool {
    fits_i32(r.x + r.w) && fits_i32(r.y + r.h)
}

/// The envelope of `a` and `b`: from the lesser left and top edges to the greater right and
/// bottom edges.
pub open spec fn envelope_of(a: Rect, b: Rect) -> Rect {
    let x0 = min_int(a.x as int, b.x as int);
    let y0 = min_int(a.y as int, b.y as int);
    let x1 = max_int(a.x + a.w, b.x + b.w);
    let y1 = max_int(a.y + a.h, b.y + b.h);
    Rect { x: x0 as i32, y: y0 as i32, w: (x1 - x0) as i32, h: (y1 - y0) as i32 }
}

/// The envelope of `a` and `b` can be computed in 32-bit arithmetic.
pub open spec fn union_fits(a: Rect, b: Rect) -> bool {
    &&& edges_fit(a)
    &&& edges_fit(b)
    &&& fits_i32(max_int(a.x + a.w, b.x + b.w) - min_int(a.x as int, b.x as int))
    &&& fits_i32(max_int(a.y + a.h, b.y + b.h) - min_int(a.y as int, b.y as int))
}

impl Rect {
    /// New rectangle.
    pub fn new(x: i32, y: i32, w: i32, h: i32) -> (r: Self)
        ensures
            r == (Rect { x, y, w, h }),
    {
        Rect { x, y, w, h }
    }

    /// Intersection of two rectangles (width and height at least 0).
    pub fn intersect(&self, o: &Rect) -> (r: Rect)
        requires
            edges_fit(*self),
            edges_fit(*o),
            fits_i32(min_int(self.x + self.w, o.x + o.w) - max_int(self.x as int, o.x as int)),
            fits_i32(min_int(self.y + self.h, o.y + o.h) - max_int(self.y as int, o.y as int)),
        ensures
            r == intersection(*self, *o),
    {
        let x0 = if self.x >= o.x { self.x } else { o.x };
        let y0 = if self.y >= o.y { self.y } else { o.y };
        let x1 = if self.x + self.w <= o.x + o.w { self.x + self.w } else { o.x + o.w };
        let y1 = if self.y + self.h <= o.y + o.h { self.y + self.h } else { o.y + o.h };
        let w = if x1 - x0 >= 0 { x1 - x0 } else { 0 };
        let h = if y1 - y0 >= 0 { y1 - y0 } else { 0 };
        Rect::new(x0, y0, w, h)
    }

    /// Whether the rectangle is empty.
    pub fn is_empty(&self) -> (r: bool)
        ensures
            r == (self.w <= 0 || self.h <= 0),
    {
        self.w <= 0 || self.h <= 0
    }

    /// Whether the rectangle holds `(px, py)`.
    pub fn contains(&self, px: i32, py: i32) -> (r: bool)
        requires
            edges_fit(*self),
        ensures
            r == (self.x <= px < self.x + self.w && self.y <= py < self.y + self.h),
    {
        px >= self.x && px < self.x + self.w && py >= self.y && py < self.y + self.h
    }

    /// Smallest rectangle that holds both `self` and `o` (their envelope).
    pub fn union(&self, o: &Rect) -> (r: Rect)
        requires
            union_fits(*self, *o),
        ensures
            r == envelope_of(*self, *o),
    {
        let x0 = if self.x <= o.x { self.x } else { o.x };
        let y0 = if self.y <= o.y { self.y } else { o.y };
        let x1 = if self.x + self.w >= o.x + o.w { self.x + self.w } else { o.x + o.w };
        let y1 = if self.y + self.h >= o.y + o.h { self.y + self.h } else { o.y + o.h };
        Rect::new(x0, y0, x1 - x0, y1 - y0)
    }
}

/// Width of a glyph in pixels.
pub const GLYPH_WIDTH: usize = 8;
/// Height of a glyph in pixels.
pub const GLYPH_HEIGHT: usize = 8;

/// Width of a glyph cell at integer scale `scale`.
pub fn cell_width(scale: i32) -> (r: i32)
    requires
        fits_i32(8 * scale),
    ensures
        r == 8 * scale,
{
    8 * scale
}

/// Height of a glyph cell at integer scale `scale`.
pub fn cell_height(scale: i32) -> (r: i32)
    requires
        fits_i32(8 * scale),
    ensures
        r == 8 * scale,
{
    8 * scale
}

/// The longest line seen in `s` so far, and the length of the line in progress.
pub open spec fn line_widths(s: Seq<char>) -> (int, int)
    decreases s.len(),
{
    if s.len() == 0 {
        (0, 0)
    } else {
        let (m, c) = line_widths(s.drop_last());
        if s.last() == '\n' {
            (max_int(m, c), 0)
        } else {
            (m, c + 1)
        }
    }
}

/// Number of characters of the longest line of `s`.
pub open spec fn longest_line(s: Seq<char>) -> int {
    max_int(line_widths(s).0, line_widths(s).1)
}

proof fn lemma_line_widths_bound(s: Seq<char>)
    ensures
        0 <= line_widths(s).0 <= s.len(),
        0 <= line_widths(s).1 <= s.len(),
    decreases s.len(),
{
    if s.len() > 0 {
        lemma_line_widths_bound(s.drop_last());
    }
}

/// Width in pixels that `text` would take: its longest line times the cell width.
pub fn text_width(text: &str, scale: i32) -> (r: i32)
    requires
        text@.len() <= i32::MAX,
        fits_i32(8 * scale),
        fits_i32(longest_line(text@) * (8 * scale)),
    ensures
        r == longest_line(text@) * (8 * scale),
{
    let mut max: i32 = 0;
    let mut cur: i32 = 0;
    let ghost s = text@;
    for c in it: text.chars()
        invariant
            s == text@,
            s.len() <= i32::MAX,
            it.seq() == s,
            (max as int, cur as int) == line_widths(s.subrange(0, it.index() as int)),
            it.index() <= s.len(),
    {
        proof {
            lemma_line_widths_bound(s.subrange(0, it.index() as int));
            assert(s.subrange(0, it.index() + 1).drop_last() =~= s.subrange(0, it.index() as int));
        }
        if c == '\n' {
            if cur > max {
                max = cur;
            }
            cur = 0;
        } else {
            cur += 1;
        }
    }
    assert(s.subrange(0, s.len() as int) =~= s);
    let m = if cur > max { cur } else { max };
    proof {
        lemma_line_widths_bound(s);
    }
    m * cell_width(scale)
}

} // verus!
