//! Text on a surface with the 8x8 bitmap font: integer scale, a foreground colour and an
//! optional background; `\n` starts a new line. Characters outside the printable range use
//! the font's replacement glyph.
use vstd::prelude::*;

use crate::font::{glyph, glyph_index, table};
use crate::gfx::surface::{fill_spec, meets, with_pixels, Surface, SurfaceView};
use crate::gfx::{cell_height, cell_width, fits_i32, Color, Rect};

verus! {

/// Cell `(row, col)` of a glyph drawn at `(x, y)` with scale `scale`.
pub open spec fn cell(x: int, y: int, scale: int, row: int, col: int) -> Rect {
    Rect { x: (x + col * scale) as i32, y: (y + row * scale) as i32, w: scale as i32, h: scale as i32 }
}

/// Whether pixel `(row, col)` of glyph `g` is on (bit 7 is the leftmost column).
pub open spec fn lit(g: Seq<u8>, row: int, col: int) -> bool {
    g[row] & (0x80u8 >> (col as u8)) != 0
}

/// Bytes after drawing the first `k` cells of glyph `g` (row by row) in colour `fg`.
pub open spec fn glyph_cells(v: SurfaceView, g: Seq<u8>, x: int, y: int, scale: int, fg: Color, k: nat) -> Seq<
    u8,
>
    decreases k,
{
    if k == 0 {
        v.pixels
    } else {
        let p = glyph_cells(v, g, x, y, scale, fg, (k - 1) as nat);
        let row = (k - 1) / 8;
        let col = (k - 1) % 8;
        if lit(g, row, col) {
            fill_spec(with_pixels(v, p), cell(x, y, scale, row, col), fg)
        } else {
            p
        }
    }
}

/// The whole 8x8 cell of a glyph at `(x, y)`.
pub open spec fn glyph_box(x: int, y: int, scale: int) -> Rect {
    Rect { x: x as i32, y: y as i32, w: (8 * scale) as i32, h: (8 * scale) as i32 }
}

/// Bytes after `draw_glyph` of glyph `g`: the background cell when there is one, then every
/// lit pixel as a `scale`-sided square.
pub open spec fn glyph_spec(v: SurfaceView, g: Seq<u8>, x: int, y: int, scale: int, fg: Color, bg: Option<Color>) -> Seq<
    u8,
> {
    let v1 = match bg {
        Some(b) => with_pixels(v, fill_spec(v, glyph_box(x, y, scale), b)),
        None => v,
    };
    glyph_cells(v1, g, x, y, scale, fg, 64)
}

/// A glyph at `(x, y)` can be placed and cut by `clip` in 32-bit arithmetic.
pub open spec fn glyph_ok(clip: Rect, x: int, y: int, scale: int) -> bool {
    &&& fits_i32(x) && fits_i32(y) && fits_i32(scale)
    &&& fits_i32(8 * scale)
    &&& forall|k: int| 0 <= k < 8 ==> #[trigger] fits_i32(x + k * scale) && fits_i32(y + k * scale)
    &&& meets(glyph_box(x, y, scale), clip)
    &&& forall|row: int, col: int| 0 <= row < 8 && 0 <= col < 8 ==> #[trigger] meets(cell(x, y, scale, row, col), clip)
}

/// Pen position after `s`, starting at `(x, y)`: each character moves it one cell right,
/// `\n` back to `x` and one cell down.
pub open spec fn pen(s: Seq<char>, x: int, y: int, scale: int) -> (int, int)
    decreases s.len(),
{
    if s.len() == 0 {
        (x, y)
    } else {
        let (cx, cy) = pen(s.drop_last(), x, y, scale);
        if s.last() == '\n' {
            (x, cy + 8 * scale)
        } else {
            (cx + 8 * scale, cy)
        }
    }
}

/// Every glyph of `s` can be placed and cut by `clip`, and the pen moves fit in 32 bits.
pub open spec fn text_ok(clip: Rect, s: Seq<char>, x: int, y: int, scale: int) -> bool
    decreases s.len(),
{
    if s.len() == 0 {
        fits_i32(x) && fits_i32(y) && fits_i32(8 * scale)
    } else {
        let (cx, cy) = pen(s.drop_last(), x, y, scale);
        &&& text_ok(clip, s.drop_last(), x, y, scale)
        &&& if s.last() == '\n' {
            fits_i32(cy + 8 * scale)
        } else {
            glyph_ok(clip, cx, cy, scale) && fits_i32(cx + 8 * scale)
        }
    }
}

/// Bytes after `draw_text` of `s` with the glyph table `gl`.
pub open spec fn text_pixels(
    v: SurfaceView,
    gl: Seq<Seq<u8>>,
    s: Seq<char>,
    x: int,
    y: int,
    scale: int,
    fg: Color,
    bg: Option<Color>,
) -> Seq<u8>
    decreases s.len(),
{
    if s.len() == 0 {
        v.pixels
    } else {
        let p = text_pixels(v, gl, s.drop_last(), x, y, scale, fg, bg);
        let (cx, cy) = pen(s.drop_last(), x, y, scale);
        if s.last() == '\n' {
            p
        } else {
            glyph_spec(with_pixels(v, p), gl[glyph_index(s.last())], cx, cy, scale, fg, bg)
        }
    }
}

proof fn lemma_text_ok_prefix(clip: Rect, s: Seq<char>, x: int, y: int, scale: int, k: int)
    requires
        0 <= k <= s.len(),
        text_ok(clip, s, x, y, scale),
    ensures
        text_ok(clip, s.take(k), x, y, scale),
    decreases s.len() - k,
{
    if k < s.len() {
        lemma_text_ok_prefix(clip, s, x, y, scale, k + 1);
        assert(s.take(k + 1).drop_last() =~= s.take(k));
    } else {
        assert(s.take(k) =~= s);
    }
}

proof fn lemma_pen_fits(clip: Rect, s: Seq<char>, x: int, y: int, scale: int)
    requires
        text_ok(clip, s, x, y, scale),
    ensures
        fits_i32(pen(s, x, y, scale).0) && fits_i32(pen(s, x, y, scale).1),
        fits_i32(8 * scale),
        fits_i32(x) && fits_i32(y),
    decreases s.len(),
{
    if s.len() > 0 {
        lemma_pen_fits(clip, s.drop_last(), x, y, scale);
    }
}

/// Draws glyph `c` from the table `glyphs` with its top left at `(x, y)`, each pixel a square
/// of side `scale`; `bg = None` leaves the background as it is.
pub fn draw_glyph(
    surf: &mut Surface<'_>,
    glyphs: &[[u8; 8]; 96],
    c: char,
    x: i32,
    y: i32,
    scale: i32,
    fg: Color,
    bg: Option<Color>,
)
    requires
        old(surf).wf(),
        glyph_ok(old(surf)@.clip, x as int, y as int, scale as int),
    ensures
        final(surf).wf(),
        final(surf)@ == with_pixels(
            old(surf)@,
            glyph_spec(old(surf)@, table(*glyphs)[glyph_index(c)], x as int, y as int, scale as int, fg, bg),
        ),
{
    let g = glyph(glyphs, c);
    let ghost gs = table(*glyphs)[glyph_index(c)];
    match bg {
        Some(bgc) => {
            surf.fill_rect(Rect::new(x, y, cell_width(scale), cell_height(scale)), bgc);
        },
        None => {},
    }
    let ghost v1 = surf@;
    let mut row: usize = 0;
    while row < 8
        invariant
            g@ == gs,
            surf.wf(),
            v1.clip == surf@.clip,
            glyph_ok(v1.clip, x as int, y as int, scale as int),
            row <= 8,
            surf@ == with_pixels(v1, glyph_cells(v1, gs, x as int, y as int, scale as int, fg, (row * 8) as nat)),
        decreases 8 - row,
    {
        let bits = g[row];
        let mut col: u8 = 0;
        while col < 8
            invariant
                g@ == gs,
                bits == gs[row as int],
                surf.wf(),
                v1.clip == surf@.clip,
                glyph_ok(v1.clip, x as int, y as int, scale as int),
                row < 8,
                col <= 8,
                surf@ == with_pixels(
                    v1,
                    glyph_cells(v1, gs, x as int, y as int, scale as int, fg, (row * 8 + col) as nat),
                ),
            decreases 8 - col,
        {
            let ghost k = row * 8 + col;
            proof {
                vstd::arithmetic::div_mod::lemma_fundamental_div_mod_converse(k as int, 8, row as int, col as int);
                assert(fits_i32(x + col * scale));
                assert(fits_i32(x + row * scale));
                assert(fits_i32(y + row * scale));
                assert(fits_i32(col * scale) && fits_i32(row * scale)) by (nonlinear_arith)
                    requires
                        0 <= col < 8,
                        0 <= row < 8,
                        fits_i32(8 * scale),
                ;
                assert(meets(cell(x as int, y as int, scale as int, row as int, col as int), v1.clip));
            }
            if bits & (0x80u8 >> col) != 0 {
                let px = x + col as i32 * scale;
                let py = y + row as i32 * scale;
                surf.fill_rect(Rect::new(px, py, scale, scale), fg);
            }
            col = col + 1;
        }
        row = row + 1;
    }
}

/// Draws `text` from `(x, y)`; `\n` goes back to `x` one line down. Returns the final pen
/// position.
pub fn draw_text(
    surf: &mut Surface<'_>,
    glyphs: &[[u8; 8]; 96],
    text: &str,
    x: i32,
    y: i32,
    scale: i32,
    fg: Color,
    bg: Option<Color>,
) -> (r: (i32, i32))
    requires
        old(surf).wf(),
        text_ok(old(surf)@.clip, text@, x as int, y as int, scale as int),
    ensures
        final(surf).wf(),
        final(surf)@ == with_pixels(
            old(surf)@,
            text_pixels(old(surf)@, table(*glyphs), text@, x as int, y as int, scale as int, fg, bg),
        ),
        (r.0 as int, r.1 as int) == pen(text@, x as int, y as int, scale as int),
{
    let ghost v0 = surf@;
    let ghost s = text@;
    let ghost gl = table(*glyphs);
    let mut cx = x;
    let mut cy = y;
    proof {
        assert(s.take(0) =~= Seq::<char>::empty());
        lemma_pen_fits(v0.clip, s, x as int, y as int, scale as int);
    }
    for c in it: text.chars()
        invariant
            s == text@,
            it.seq() == s,
            it.index() <= s.len(),
            gl == table(*glyphs),
            text_ok(v0.clip, s, x as int, y as int, scale as int),
            surf.wf(),
            surf@.clip == v0.clip,
            surf@ == with_pixels(v0, text_pixels(v0, gl, s.take(it.index() as int), x as int, y as int, scale as int, fg, bg)),
            (cx as int, cy as int) == pen(s.take(it.index() as int), x as int, y as int, scale as int),
    {
        let ghost i = it.index() as int;
        proof {
            lemma_text_ok_prefix(v0.clip, s, x as int, y as int, scale as int, i + 1);
            let t = s.take(i + 1);
            assert(t.drop_last() =~= s.take(i));
            assert(t.last() == c);
            lemma_pen_fits(v0.clip, t.drop_last(), x as int, y as int, scale as int);
        }
        if c == '\n' {
            cx = x;
            cy = cy + cell_height(scale);
        } else {
            draw_glyph(surf, glyphs, c, cx, cy, scale, fg, bg);
            cx = cx + cell_width(scale);
        }
    }
    proof {
        assert(s.take(s.len() as int) =~= s);
    }
    (cx, cy)
}

} // verus!
