use lib::font::parse;
use lib::gfx::ui::{draw_focus_ring, Button, ButtonState, Label, Nav, Theme, VStack};
use lib::gfx::{cell_height, cell_width, Color, PixelFormat, Rect, Surface};

#[test]
fn nav_cycles_focus_both_ways() {
    let mut n = Nav::new(3);
    assert_eq!(n.index, 0);
    assert_eq!(n.focus_next(), 1);
    assert_eq!(n.focus_next(), 2);
    assert_eq!(n.focus_next(), 0);
    assert_eq!(n.focus_prev(), 2);
    assert_eq!(n.focus_prev(), 1);
}

#[test]
fn nav_with_no_widgets_still_has_one() {
    let mut n = Nav::new(0);
    assert_eq!(n.focus_next(), 0);
    assert_eq!(n.focus_prev(), 0);
}

#[test]
fn nav_next_then_prev_returns() {
    let mut n = Nav::new(5);
    for _ in 0..7 {
        let before = n.index;
        n.focus_next();
        assert_eq!(n.focus_prev(), before);
        n.focus_next();
    }
}

#[test]
fn label_size_matches_text() {
    let l = Label::new("ok");
    assert_eq!(l.size(), (2 * cell_width(1), cell_height(1)));
    let big = Label { text: "abc", scale: 2 };
    assert_eq!(big.size(), (3 * cell_width(2), cell_height(2)));
}

#[test]
fn button_hit_test_and_state() {
    let mut b = Button::new(Rect::new(10, 10, 40, 16), "Go");
    assert!(b.contains(12, 12));
    assert!(!b.contains(0, 0));
    assert_eq!(b.update(12, 12, false), ButtonState::Hover);
    assert_eq!(b.update(12, 12, true), ButtonState::Pressed);
    assert_eq!(b.update(0, 0, true), ButtonState::Normal);
    assert!(!b.contains(50, 12));
    assert!(b.contains(49, 25));
}

#[test]
fn vstack_places_children_with_spacing() {
    let mut st = VStack::new(5, 10, 100, 4);
    let a = st.place(16);
    let b = st.place(16);
    assert_eq!(a, Rect::new(5, 10, 100, 16));
    assert_eq!(b, Rect::new(5, 30, 100, 16));
    assert_eq!(st.height(), 36);
}

#[test]
fn empty_vstack_has_no_height() {
    let st = VStack::new(0, 0, 10, 4);
    assert_eq!(st.height(), 0);
}

fn surface(buf: &mut [u8], w: u32, h: u32) -> Surface<'_> {
    Surface::new(buf, w, h, w, PixelFormat::Rgbx8888).unwrap()
}

#[test]
fn themes_are_distinct() {
    let l = Theme::light();
    let d = Theme::dark();
    let hc = Theme::high_contrast();
    assert_ne!(l.bg, d.bg);
    assert_ne!(l.fg, d.fg);
    // high contrast: pure black background and pure white text
    assert_eq!(hc.bg, Color::rgb(0, 0, 0));
    assert_eq!(hc.fg, Color::rgb(255, 255, 255));
    // the high-contrast accent is a saturated yellow
    assert_eq!(hc.accent, Color::rgb(255, 255, 0));
}

#[test]
fn focus_ring_draws_around_widget() {
    let theme = Theme::light();
    let mut buf = vec![0u8; 20 * 20 * 4];
    let mut s = surface(&mut buf, 20, 20);
    s.clear(theme.bg);
    let r = Rect::new(4, 4, 8, 8);
    draw_focus_ring(&mut s, r, &theme);
    // the ring runs on the outer frame (3,3)..(12,12); the inside is untouched
    assert_eq!(s.get(3, 3), theme.accent);
    assert_eq!(s.get(12, 3), theme.accent);
    assert_eq!(s.get(3, 12), theme.accent);
    assert_eq!(s.get(6, 6), theme.bg);
}

#[test]
fn dark_theme_buttons_share_the_accent_family() {
    let d = Theme::dark();
    assert_eq!(d.button_bg, Color::rgb(0x2f, 0x6f, 0xed));
    assert_eq!(d.button_pressed, Color::rgb(0x1f, 0x48, 0xa8));
    assert_eq!(Theme::light().button_fg, d.button_fg);
}

const FONT: &str = "\
#41
..####..
.##..##.
##....##
.######.
##....##
##....##
##....##
........
";

#[test]
fn button_draws_bg_border_and_label() {
    let font = parse(FONT.as_bytes());
    let theme = Theme::light();
    let mut buf = vec![0u8; 40 * 20 * 4];
    let mut s = surface(&mut buf, 40, 20);
    s.clear(theme.bg);
    let b = Button::new(Rect::new(2, 2, 36, 16), "A");
    b.draw(&mut s, &font, &theme);
    // the button's background fills the inside
    assert_eq!(s.get(6, 8), theme.button_bg);
    // the border runs along the top edge
    assert_eq!(s.get(2, 2), theme.border);
    // the centred label lights some pixel in the button's text colour
    let lit = (b.rect.x..b.rect.x + b.rect.w)
        .flat_map(|x| (b.rect.y..b.rect.y + b.rect.h).map(move |y| (x, y)))
        .any(|(x, y)| s.get(x, y) == theme.button_fg);
    assert!(lit, "label not drawn");
}

#[test]
fn label_draws_in_the_text_colour() {
    let font = parse(FONT.as_bytes());
    let theme = Theme::dark();
    let mut buf = vec![0u8; 16 * 8 * 4];
    let mut s = surface(&mut buf, 16, 8);
    s.clear(theme.bg);
    Label::new("AA").draw(&mut s, &font, 0, 0, &theme);
    // 'A' row 0 is ..####.. : columns 2..6 of each cell are lit
    assert_eq!(s.get(2, 0), theme.fg);
    assert_eq!(s.get(10, 0), theme.fg);
    assert_eq!(s.get(0, 0), theme.bg);
}

#[test]
fn pressed_button_uses_the_pressed_colour() {
    let font = parse(FONT.as_bytes());
    let theme = Theme::high_contrast();
    let mut buf = vec![0u8; 20 * 12 * 4];
    let mut s = surface(&mut buf, 20, 12);
    s.clear(theme.bg);
    let mut b = Button::new(Rect::new(0, 0, 20, 12), "");
    b.update(1, 1, true);
    b.draw(&mut s, &font, &theme);
    assert_eq!(s.get(5, 5), theme.button_pressed);
    assert_eq!(s.get(0, 11), theme.border);
}
