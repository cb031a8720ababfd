//! Widget logic: labels, buttons with their pointer state, vertical stacking and keyboard
//! focus navigation.
use vstd::prelude::*;
use crate::gfx::{Color, Rect, cell_width, cell_height, edges_fit, fits_i32, max_int};
use crate::gfx::surface::{edges_meet, fill_spec, meets, stroke_spec, with_pixels, Surface, SurfaceView};
use crate::gfx::text::{draw_text, text_ok, text_pixels};
use crate::font::table;

verus! {

/// Default inner padding of widgets (pixels at scale 1).
pub const PADDING: i32 = 4;

/// A text label.
#[derive(Clone, Copy, Debug)]
pub struct Label<'a> {
    /// Text (one line).
    pub text: &'a str,
    /// Integer font scale.
    pub scale: i32,
}

impl<'a> Label<'a> {
    /// A label at scale 1.
    pub fn new(text: &'a str) -> (l: Label<'a>)
        ensures
            l.text == text,
            l.scale == 1,
    {
        Label { text, scale: 1 }
    }

    /// Size `(width, height)` in pixels.
    pub fn size(&self) -> (r: (i32, i32))
        requires
            self.text@.len() <= i32::MAX,
            fits_i32(8 * self.scale),
            fits_i32(self.text@.len() * (8 * self.scale)),
        ensures
            r == ((self.text@.len() * (8 * self.scale)) as i32, (8 * self.scale) as i32),
    {
        let mut n: i32 = 0;
        for c in it: self.text.chars()
            invariant
                it.seq() == self.text@,
                self.text@.len() <= i32::MAX,
                n == it.index(),
                it.index() <= self.text@.len(),
        {
            n += 1;
        }
        (n * cell_width(self.scale), cell_height(self.scale))
    }

    /// Draws the label at `(x, y)` in the theme's text colour, with the glyph table `glyphs`.
    pub fn draw(&self, surf: &mut Surface<'_>, glyphs: &[[u8; 8]; 96], x: i32, y: i32, theme: &Theme)
        requires
            old(surf).wf(),
            text_ok(old(surf)@.clip, self.text@, x as int, y as int, self.scale as int),
        ensures
            final(surf).wf(),
            final(surf)@ == with_pixels(
                old(surf)@,
                text_pixels(old(surf)@, table(*glyphs), self.text@, x as int, y as int, self.scale as int, theme.fg, None),
            ),
    {
        draw_text(surf, glyphs, self.text, x, y, self.scale, theme.fg, None);
    }
}

/// Visual state of a button (the application updates it from input).
#[derive(Clone, Copy, Debug, PartialEq, Eq, Structural)]
pub enum ButtonState {
    /// At rest.
    Normal,
    /// Under the pointer.
    Hover,
    /// Being pressed.
    Pressed,
}

/// A rectangular button with a centred label.
#[derive(Clone, Copy, Debug)]
pub struct Button<'a> {
    /// Area of the button.
    pub rect: Rect,
    /// Label text.
    pub label: &'a str,
    /// Font scale of the label.
    pub scale: i32,
    /// Visual state.
    pub state: ButtonState,
}

impl<'a> Button<'a> {
    /// A button in `rect` at scale 1, at rest.
    pub fn new(rect: Rect, label: &'a str) -> (b: Button<'a>)
        ensures
            b.rect == rect,
            b.label == label,
            b.scale == 1,
            b.state == ButtonState::Normal,
    {
        Button { rect, label, scale: 1, state: ButtonState::Normal }
    }

    /// Whether `(x, y)` is on the button (hit test).
    pub fn contains(&self, x: i32, y: i32) -> (r: bool)
        requires
            edges_fit(self.rect),
        ensures
            r == (self.rect.x <= x < self.rect.x + self.rect.w && self.rect.y <= y < self.rect.y + self.rect.h),
    {
        self.rect.contains(x, y)
    }

    /// The state for the pointer at `(px, py)`: pressed on the button, hovering, or away.
    /// Stores and returns it.
    pub fn update(&mut self, px: i32, py: i32, pressed: bool) -> (s: ButtonState)
        requires
            edges_fit(old(self).rect),
        ensures
            s == final(self).state,
            final(self).rect == old(self).rect,
            final(self).label == old(self).label,
            final(self).scale == old(self).scale,
            s == if old(self).rect.x <= px < old(self).rect.x + old(self).rect.w && old(self).rect.y <= py < old(
                self,
            ).rect.y + old(self).rect.h {
                if pressed { ButtonState::Pressed } else { ButtonState::Hover }
            } else {
                ButtonState::Normal
            },
    {
        self.state = if self.contains(px, py) {
            if pressed { ButtonState::Pressed } else { ButtonState::Hover }
        } else {
            ButtonState::Normal
        };
        self.state
    }

    /// Background colour for the button's state.
    fn bg(&self, theme: &Theme) -> (c: Color)
        ensures
            c == button_bg(self.state, *theme),
    {
        match self.state {
            ButtonState::Normal => theme.button_bg,
            ButtonState::Hover => theme.button_hover,
            ButtonState::Pressed => theme.button_pressed,
        }
    }

    /// Draws the button: background by state, border, and the label centred in the rectangle.
    pub fn draw(&self, surf: &mut Surface<'_>, glyphs: &[[u8; 8]; 96], theme: &Theme)
        requires
            old(surf).wf(),
            button_ok(*self, old(surf)@.clip),
        ensures
            final(surf).wf(),
            final(surf)@ == with_pixels(old(surf)@, button_spec(old(surf)@, *self, table(*glyphs), *theme)),
    {
        surf.fill_rect(self.rect, self.bg(theme));
        surf.stroke_rect(self.rect, theme.border);
        let mut n: i32 = 0;
        for c in it: self.label.chars()
            invariant
                it.seq() == self.label@,
                self.label@.len() <= i32::MAX,
                n == it.index(),
                it.index() <= self.label@.len(),
        {
            n += 1;
        }
        let tw = n * cell_width(self.scale);
        let th = cell_height(self.scale);
        let tx = self.rect.x + (self.rect.w - tw) / 2;
        let ty = self.rect.y + (self.rect.h - th) / 2;
        draw_text(surf, glyphs, self.label, tx, ty, self.scale, theme.button_fg, None);
    }
}

/// Background colour of a button in state `s`.
pub open spec fn button_bg(s: ButtonState, theme: Theme) -> Color {
    match s {
        ButtonState::Normal => theme.button_bg,
        ButtonState::Hover => theme.button_hover,
        ButtonState::Pressed => theme.button_pressed,
    }
}

/// Half of `a`, rounded toward zero.
pub open spec fn half(a: int) -> int {
    if a >= 0 { a / 2 } else { -((-a) / 2) }
}

/// Where the label of `b` starts: centred in the rectangle.
pub open spec fn label_origin(b: Button) -> (int, int) {
    let tw = b.label@.len() * (8 * b.scale);
    let th = 8 * b.scale;
    (b.rect.x + half(b.rect.w - tw), b.rect.y + half(b.rect.h - th))
}

/// The button can be filled, outlined and labelled inside `clip` in 32-bit arithmetic.
pub open spec fn button_ok(b: Button, clip: Rect) -> bool {
    let tw = b.label@.len() * (8 * b.scale);
    let th = 8 * b.scale;
    &&& meets(b.rect, clip)
    &&& edges_meet(b.rect, clip)
    &&& b.label@.len() <= i32::MAX
    &&& fits_i32(8 * b.scale) && fits_i32(tw)
    &&& fits_i32(b.rect.w - tw) && fits_i32(b.rect.h - th)
    &&& fits_i32(label_origin(b).0) && fits_i32(label_origin(b).1)
    &&& text_ok(clip, b.label@, label_origin(b).0, label_origin(b).1, b.scale as int)
}

/// Bytes after `draw` of button `b`.
pub open spec fn button_spec(v: SurfaceView, b: Button, gl: Seq<Seq<u8>>, theme: Theme) -> Seq<u8> {
    let v1 = with_pixels(v, fill_spec(v, b.rect, button_bg(b.state, theme)));
    let v2 = with_pixels(v1, stroke_spec(v1, b.rect, theme.border));
    text_pixels(v2, gl, b.label@, label_origin(b).0, label_origin(b).1, b.scale as int, theme.button_fg, None)
}

/// Vertical stack: lays children out top to bottom with fixed spacing, in a column of
/// width `width` from `(x, y)`.
#[derive(Clone, Copy, Debug)]
pub struct VStack {
    x: i32,
    y: i32,
    width: i32,
    spacing: i32,
    cursor: i32,
}

impl VStack {
    /// Origin, width, spacing and the top of the next child.
    pub closed spec fn parts(&self) -> (i32, i32, i32, i32, i32) {
        (self.x, self.y, self.width, self.spacing, self.cursor)
    }

    /// A stack at `(x, y)`, `width` wide, with `spacing` between children.
    pub fn new(x: i32, y: i32, width: i32, spacing: i32) -> (s: VStack)
        ensures
            s.parts() == (x, y, width, spacing, y),
    {
        VStack { x, y, width, spacing, cursor: y }
    }

    /// Reserves the next child, `h` high; returns its rectangle and moves on.
    pub fn place(&mut self, h: i32) -> (r: Rect)
        requires
            fits_i32(old(self).parts().4 + h + old(self).parts().3),
            fits_i32(h + old(self).parts().3),
        ensures
            r == (Rect { x: old(self).parts().0, y: old(self).parts().4, w: old(self).parts().2, h }),
            final(self).parts() == (old(self).parts().0, old(self).parts().1, old(self).parts().2, old(self).parts().3, (
            old(self).parts().4 + h + old(self).parts().3) as i32),
    {
        let r = Rect::new(self.x, self.cursor, self.width, h);
        self.cursor = self.cursor + (h + self.spacing);
        r
    }

    /// Height used so far (without the trailing spacing).
    pub fn height(&self) -> (r: i32)
        requires
            fits_i32(self.parts().4 - self.parts().1),
            fits_i32(self.parts().4 - self.parts().1 - self.parts().3),
        ensures
            r == max_int(self.parts().4 - self.parts().1 - self.parts().3, 0),
    {
        let d = self.cursor - self.y - self.spacing;
        if d >= 0 { d } else { 0 }
    }
}

/// Keyboard navigation over focusable widgets: a focus index that Tab moves forward and
/// Shift+Tab back, always wrapping around.
#[derive(Clone, Copy, Debug)]
pub struct Nav {
    count: usize,
    /// Index of the focused widget (from 0).
    pub index: usize,
}

impl Nav {
    /// Number of widgets.
    pub closed spec fn count(&self) -> usize {
        self.count
    }

    /// The focused index.
    pub closed spec fn focused(&self) -> usize {
        self.index
    }

    /// Navigation over `count` widgets (at least one), focus on the first.
    pub fn new(count: usize) -> (n: Nav)
        ensures
            n.count() == if count >= 1 { count } else { 1 },
            n.focused() == 0,
    {
        Nav { count: if count >= 1 { count } else { 1 }, index: 0 }
    }

    /// Moves the focus forward (Tab), wrapping; returns the new index.
    pub fn focus_next(&mut self) -> (r: usize)
        requires
            old(self).count() >= 1,
            old(self).focused() < usize::MAX,
        ensures
            r == final(self).focused(),
            r == (old(self).focused() + 1) % (old(self).count() as int),
            final(self).count() == old(self).count(),
    {
        self.index = (self.index + 1) % self.count;
        self.index
    }

    /// Moves the focus back (Shift+Tab), wrapping; returns the new index.
    pub fn focus_prev(&mut self) -> (r: usize)
        requires
            old(self).count() >= 1,
            old(self).focused() + old(self).count() - 1 <= usize::MAX,
        ensures
            r == final(self).focused(),
            r == (old(self).focused() + old(self).count() - 1) % (old(self).count() as int),
            final(self).count() == old(self).count(),
    {
        self.index = (self.index + (self.count - 1)) % self.count;
        self.index
    }
}

/// Moving the focus forward and then back returns it where it was (for a focus on one of
/// the widgets), and so does moving it back and then forward.
pub proof fn lemma_focus_round_trip(count: int, index: int)
    requires
        count >= 1,
        0 <= index < count,
    ensures
        ((index + 1) % count + count - 1) % count == index,
        ((index + count - 1) % count + 1) % count == index,
{
    if index + 1 < count {
        vstd::arithmetic::div_mod::lemma_small_mod((index + 1) as nat, count as nat);
        vstd::arithmetic::div_mod::lemma_small_mod((index + count) as nat % count as nat, count as nat);
        vstd::arithmetic::div_mod::lemma_fundamental_div_mod(index + count, count);
        assert((index + count) / count == 1) by (nonlinear_arith)
            requires 0 <= index < count, count * ((index + count) / count) + (index + count) % count == index + count,
                0 <= (index + count) % count < count;
    } else {
        vstd::arithmetic::div_mod::lemma_mod_self_0(count);
        vstd::arithmetic::div_mod::lemma_small_mod((count - 1) as nat, count as nat);
    }
    if index >= 1 {
        vstd::arithmetic::div_mod::lemma_fundamental_div_mod(index + count - 1, count);
        assert((index + count - 1) % count == index - 1) by (nonlinear_arith)
            requires 1 <= index < count, count * ((index + count - 1) / count) + (index + count - 1) % count == index + count - 1,
                0 <= (index + count - 1) % count < count;
        vstd::arithmetic::div_mod::lemma_small_mod(index as nat, count as nat);
    } else {
        vstd::arithmetic::div_mod::lemma_small_mod((count - 1) as nat, count as nat);
        vstd::arithmetic::div_mod::lemma_mod_self_0(count);
    }
}

/// Opaque colour from its channels.
pub open spec fn opaque(r: u8, g: u8, b: u8) -> Color {
    Color { r, g, b, a: 255 }
}

/// The colours of the interface; every widget paints from these.
#[derive(Clone, Copy, Debug, PartialEq, Eq, Structural)]
pub struct Theme {
    /// Window or screen background.
    pub bg: Color,
    /// Background of a content surface (card, panel).
    pub surface: Color,
    /// Main text.
    pub fg: Color,
    /// Secondary text and detail.
    pub muted: Color,
    /// Accent (focus, selection).
    pub accent: Color,
    /// Borders and dividers.
    pub border: Color,
    /// Button background at rest.
    pub button_bg: Color,
    /// Button background under the pointer.
    pub button_hover: Color,
    /// Button background while pressed.
    pub button_pressed: Color,
    /// Button text.
    pub button_fg: Color,
}

impl Theme {
    /// Light theme (the default).
    pub fn light() -> (t: Theme)
        ensures
            t == (Theme {
                bg: opaque(0xf4, 0xf4, 0xf6),
                surface: opaque(0xff, 0xff, 0xff),
                fg: opaque(0x1a, 0x1a, 0x1f),
                muted: opaque(0x6b, 0x6b, 0x76),
                accent: opaque(0x2f, 0x6f, 0xed),
                border: opaque(0xd0, 0xd0, 0xd6),
                button_bg: opaque(0x2f, 0x6f, 0xed),
                button_hover: opaque(0x4a, 0x84, 0xf0),
                button_pressed: opaque(0x24, 0x58, 0xc0),
                button_fg: opaque(0xff, 0xff, 0xff),
            }),
    {
        Theme {
            bg: Color::rgb(0xf4, 0xf4, 0xf6),
            surface: Color::rgb(0xff, 0xff, 0xff),
            fg: Color::rgb(0x1a, 0x1a, 0x1f),
            muted: Color::rgb(0x6b, 0x6b, 0x76),
            accent: Color::rgb(0x2f, 0x6f, 0xed),
            border: Color::rgb(0xd0, 0xd0, 0xd6),
            button_bg: Color::rgb(0x2f, 0x6f, 0xed),
            button_hover: Color::rgb(0x4a, 0x84, 0xf0),
            button_pressed: Color::rgb(0x24, 0x58, 0xc0),
            button_fg: Color::rgb(0xff, 0xff, 0xff),
        }
    }

    /// Dark theme.
    pub fn dark() -> (t: Theme)
        ensures
            t == (Theme {
                bg: opaque(0x14, 0x15, 0x18),
                surface: opaque(0x1e, 0x1f, 0x24),
                fg: opaque(0xec, 0xec, 0xf0),
                muted: opaque(0x9a, 0x9a, 0xa4),
                accent: opaque(0x6f, 0x9f, 0xff),
                border: opaque(0x33, 0x34, 0x3a),
                button_bg: opaque(0x2f, 0x6f, 0xed),
                button_hover: opaque(0x4a, 0x84, 0xf0),
                button_pressed: opaque(0x1f, 0x48, 0xa8),
                button_fg: opaque(0xff, 0xff, 0xff),
            }),
    {
        Theme {
            bg: Color::rgb(0x14, 0x15, 0x18),
            surface: Color::rgb(0x1e, 0x1f, 0x24),
            fg: Color::rgb(0xec, 0xec, 0xf0),
            muted: Color::rgb(0x9a, 0x9a, 0xa4),
            accent: Color::rgb(0x6f, 0x9f, 0xff),
            border: Color::rgb(0x33, 0x34, 0x3a),
            button_bg: Color::rgb(0x2f, 0x6f, 0xed),
            button_hover: Color::rgb(0x4a, 0x84, 0xf0),
            button_pressed: Color::rgb(0x1f, 0x48, 0xa8),
            button_fg: Color::rgb(0xff, 0xff, 0xff),
        }
    }

    /// High-contrast theme: pure black and white with a saturated accent.
    pub fn high_contrast() -> (t: Theme)
        ensures
            t == (Theme {
                bg: opaque(0, 0, 0),
                surface: opaque(0, 0, 0),
                fg: opaque(0xff, 0xff, 0xff),
                muted: opaque(0xff, 0xff, 0xff),
                accent: opaque(0xff, 0xff, 0x00),
                border: opaque(0xff, 0xff, 0xff),
                button_bg: opaque(0, 0, 0),
                button_hover: opaque(0x33, 0x33, 0x00),
                button_pressed: opaque(0xff, 0xff, 0x00),
                button_fg: opaque(0xff, 0xff, 0xff),
            }),
    {
        Theme {
            bg: Color::rgb(0, 0, 0),
            surface: Color::rgb(0, 0, 0),
            fg: Color::rgb(0xff, 0xff, 0xff),
            muted: Color::rgb(0xff, 0xff, 0xff),
            accent: Color::rgb(0xff, 0xff, 0x00),
            border: Color::rgb(0xff, 0xff, 0xff),
            button_bg: Color::rgb(0, 0, 0),
            button_hover: Color::rgb(0x33, 0x33, 0x00),
            button_pressed: Color::rgb(0xff, 0xff, 0x00),
            button_fg: Color::rgb(0xff, 0xff, 0xff),
        }
    }
}

/// The rectangle one pixel outside `rect` on every side.
pub open spec fn ring(rect: Rect) -> Rect {
    Rect { x: (rect.x - 1) as i32, y: (rect.y - 1) as i32, w: (rect.w + 2) as i32, h: (rect.h + 2) as i32 }
}

/// Draws the focus ring in the accent colour one pixel outside `rect`, so that it does not
/// cover the widget's own border.
pub fn draw_focus_ring(surf: &mut Surface<'_>, rect: Rect, theme: &Theme)
    requires
        old(surf).wf(),
        fits_i32(rect.x - 1) && fits_i32(rect.y - 1) && fits_i32(rect.w + 2) && fits_i32(rect.h + 2),
        edges_meet(ring(rect), old(surf)@.clip),
    ensures
        final(surf).wf(),
        final(surf)@ == with_pixels(old(surf)@, stroke_spec(old(surf)@, ring(rect), theme.accent)),
{
    surf.stroke_rect(Rect::new(rect.x - 1, rect.y - 1, rect.w + 2, rect.h + 2), theme.accent);
}

} // verus!
