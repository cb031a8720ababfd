use lib::gfx::{cell_height, cell_width, text_width, Color, Rect};
use lib::gfx::surface::{PixelFormat, Surface};
use lib::gfx::text::{draw_glyph, draw_text};
use lib::font::parse;

#[test]
fn colors_are_built_from_channels() {
    assert_eq!(Color::rgb(1, 2, 3), Color { r: 1, g: 2, b: 3, a: 255 });
    assert_eq!(Color::rgba(1, 2, 3, 4), Color { r: 1, g: 2, b: 3, a: 4 });
}

#[test]
fn rect_intersection_and_containment() {
    let a = Rect::new(0, 0, 10, 10);
    let b = Rect::new(5, 5, 10, 10);
    assert_eq!(a.intersect(&b), Rect::new(5, 5, 5, 5));
    let c = Rect::new(20, 20, 5, 5);
    let i = a.intersect(&c);
    assert!(i.is_empty());
    assert_eq!(i, Rect::new(20, 20, 0, 0));
    assert!(a.contains(0, 0));
    assert!(a.contains(9, 9));
    assert!(!a.contains(10, 9));
    assert!(!a.contains(-1, 0));
    assert!(Rect::new(0, 0, 0, 5).is_empty());
    assert!(!Rect::new(0, 0, 1, 1).is_empty());
}

#[test]
fn dimensions() {
    assert_eq!(cell_width(1), 8);
    assert_eq!(cell_height(2), 16);
    assert_eq!(text_width("ab", 1), 16);
    assert_eq!(text_width("a\nbcd", 2), 3 * 16);
}

#[test]
fn text_width_edges() {
    assert_eq!(text_width("", 3), 0);
    assert_eq!(text_width("ab\n", 1), 16);
    assert_eq!(text_width("abcd\nb", 1), 32);
    assert_eq!(text_width("\u{e9}t\u{e9}", 1), 24);
}

fn surface(w: u32, h: u32) -> Vec<u8> {
    vec![0u8; (w * h * 4) as usize]
}

#[test]
fn fill_and_read_back() {
    let mut buf = surface(4, 4);
    let mut s = Surface::new(&mut buf, 4, 4, 4, PixelFormat::Rgbx8888).unwrap();
    s.clear(Color::rgb(10, 20, 30));
    assert_eq!(s.get(0, 0), Color::rgb(10, 20, 30));
    assert_eq!(s.get(3, 3), Color::rgb(10, 20, 30));
    s.fill_rect(Rect::new(1, 1, 2, 2), Color::rgb(200, 100, 50));
    assert_eq!(s.get(0, 0), Color::rgb(10, 20, 30));
    assert_eq!(s.get(1, 1), Color::rgb(200, 100, 50));
    assert_eq!(s.get(2, 2), Color::rgb(200, 100, 50));
    assert_eq!(s.get(3, 3), Color::rgb(10, 20, 30));
}

#[test]
fn pixel_format_byte_order() {
    let mut rgb = surface(1, 1);
    Surface::new(&mut rgb, 1, 1, 1, PixelFormat::Rgbx8888)
        .unwrap()
        .put(0, 0, Color::rgb(1, 2, 3));
    assert_eq!(&rgb[..3], &[1, 2, 3]);
    let mut bgr = surface(1, 1);
    Surface::new(&mut bgr, 1, 1, 1, PixelFormat::Bgrx8888)
        .unwrap()
        .put(0, 0, Color::rgb(1, 2, 3));
    assert_eq!(&bgr[..3], &[3, 2, 1]);
}

#[test]
fn alpha_compositing_srcover() {
    let mut buf = surface(1, 1);
    let mut s = Surface::new(&mut buf, 1, 1, 1, PixelFormat::Rgbx8888).unwrap();
    s.clear(Color::rgb(0, 0, 0));
    // half-transparent white over black is about 128
    s.blend(0, 0, Color::rgba(255, 255, 255, 128));
    let c = s.get(0, 0);
    assert!((c.r as i32 - 128).abs() <= 1, "r={}", c.r);
    // opaque overwrites
    s.blend(0, 0, Color::rgb(10, 20, 30));
    assert_eq!(s.get(0, 0), Color::rgb(10, 20, 30));
    // alpha 0 changes nothing
    s.blend(0, 0, Color::rgba(9, 9, 9, 0));
    assert_eq!(s.get(0, 0), Color::rgb(10, 20, 30));
}

#[test]
fn clipping_constrains_draw() {
    let mut buf = surface(8, 8);
    let mut s = Surface::new(&mut buf, 8, 8, 8, PixelFormat::Rgbx8888).unwrap();
    s.clear(Color::black());
    s.set_clip(Rect::new(2, 2, 3, 3));
    s.fill_rect(Rect::new(0, 0, 8, 8), Color::white());
    // outside the clip stays black
    assert_eq!(s.get(1, 1), Color::black());
    assert_eq!(s.get(5, 5), Color::black());
    // inside the clip turns white
    assert_eq!(s.get(2, 2), Color::white());
    assert_eq!(s.get(4, 4), Color::white());
    // put outside the clip is ignored
    s.put(0, 0, Color::white());
    assert_eq!(s.get(0, 0), Color::black());
}

#[test]
fn stride_larger_than_width() {
    // stride 6 on a 4x2 surface: columns 4 and 5 are padding and stay untouched
    let mut buf = surface(6, 2);
    Surface::new(&mut buf, 4, 2, 6, PixelFormat::Rgbx8888)
        .unwrap()
        .clear(Color::rgb(9, 9, 9));
    // pixel (4,0) sits at byte (0*6+4)*4 = 16
    assert_eq!(&buf[16..19], &[0, 0, 0], "padding was written");
}

#[test]
fn blit_composites_between_surfaces() {
    let mut src = surface(2, 2);
    Surface::new(&mut src, 2, 2, 2, PixelFormat::Rgbx8888)
        .unwrap()
        .clear(Color::rgb(255, 0, 0));
    let src_surf = Surface::new(&mut src, 2, 2, 2, PixelFormat::Rgbx8888).unwrap();
    let mut dst = surface(4, 4);
    let mut ds = Surface::new(&mut dst, 4, 4, 4, PixelFormat::Bgrx8888).unwrap();
    ds.clear(Color::rgb(0, 0, 255));
    ds.blit(&src_surf, Rect::new(0, 0, 2, 2), 1, 1);
    // converted between formats: red on the destination
    assert_eq!(ds.get(1, 1), Color::rgb(255, 0, 0));
    assert_eq!(ds.get(0, 0), Color::rgb(0, 0, 255));
    assert_eq!(ds.get(3, 3), Color::rgb(0, 0, 255));
}

#[test]
fn rejects_bad_surfaces() {
    let mut buf = surface(4, 4);
    assert!(Surface::new(&mut buf, 4, 4, 4, PixelFormat::Unknown).is_none());
    let mut small = vec![0u8; 8];
    assert!(Surface::new(&mut small, 4, 4, 4, PixelFormat::Rgbx8888).is_none());
}

#[test]
fn stroke_draws_only_the_outline() {
    let mut buf = surface(6, 6);
    let mut s = Surface::new(&mut buf, 6, 6, 6, PixelFormat::Rgbx8888).unwrap();
    s.clear(Color::black());
    s.stroke_rect(Rect::new(1, 1, 4, 4), Color::white());
    assert_eq!(s.get(1, 1), Color::white());
    assert_eq!(s.get(4, 4), Color::white());
    assert_eq!(s.get(4, 1), Color::white());
    assert_eq!(s.get(1, 3), Color::white());
    assert_eq!(s.get(2, 2), Color::black());
    assert_eq!(s.get(0, 0), Color::black());
    assert_eq!(s.get(5, 5), Color::black());
}

#[test]
fn reset_clip_restores_the_whole_surface() {
    let mut buf = surface(4, 4);
    let mut s = Surface::new(&mut buf, 4, 4, 4, PixelFormat::Bgrx8888).unwrap();
    s.set_clip(Rect::new(-3, 2, 100, 1));
    assert_eq!(s.clip(), Rect::new(0, 2, 4, 1));
    s.reset_clip();
    assert_eq!(s.clip(), Rect::new(0, 0, 4, 4));
    assert_eq!(s.get(-1, 0), Color::black());
    assert_eq!(s.get(4, 0), Color::black());
    assert_eq!((s.width(), s.height()), (4, 4));
}

#[test]
fn blend_rounds_each_channel() {
    let mut buf = surface(1, 1);
    let mut s = Surface::new(&mut buf, 1, 1, 1, PixelFormat::Rgbx8888).unwrap();
    s.clear(Color::rgb(100, 0, 255));
    s.blend(0, 0, Color::rgba(200, 255, 0, 51));
    // (200*51 + 100*204 + 127) / 255 = 120; (255*51 + 127) / 255 = 51; (255*204 + 127) / 255 = 204
    assert_eq!(s.get(0, 0), Color::rgb(120, 51, 204));
    assert_eq!(buf[3], 0);
}

#[test]
fn transparent_clear_changes_nothing() {
    let mut buf = surface(2, 1);
    let mut s = Surface::new(&mut buf, 2, 1, 2, PixelFormat::Rgbx8888).unwrap();
    s.clear(Color::rgb(7, 8, 9));
    s.clear(Color::transparent());
    assert_eq!(s.get(1, 0), Color::rgb(7, 8, 9));
}

const FONT: &str = "\
#41
..####..
.##..##.
##....##
.######.
##....##
##....##
##....##
........
#48
##....##
##....##
##....##
########
##....##
##....##
##....##
........
#61
........
........
.####...
.....##.
.#####..
##..##..
.###.##.
........
#62
##......
##......
#####...
##..##..
##..##..
##..##..
#####...
........
#7F
.######.
##....##
##....##
##....##
##....##
##....##
.######.
........
";

#[test]
fn draws_something_and_respects_bg() {
    let font = parse(FONT.as_bytes());
    let mut b = surface(16, 8);
    let mut s = Surface::new(&mut b, 16, 8, 16, PixelFormat::Rgbx8888).unwrap();
    s.clear(Color::black());
    // 'H' has lit pixels; with a blue background the unlit ones turn blue
    draw_glyph(&mut s, &font, 'H', 0, 0, 1, Color::white(), Some(Color::rgb(0, 0, 40)));
    let mut white = 0;
    let mut blue = 0;
    for y in 0..8 {
        for x in 0..8 {
            match s.get(x, y) {
                Color { r: 255, g: 255, b: 255, .. } => white += 1,
                Color { r: 0, g: 0, b: 40, .. } => blue += 1,
                _ => {}
            }
        }
    }
    assert!(white > 0, "glyph not drawn");
    assert!(blue > 0, "background not painted");
    assert_eq!(white + blue, 64, "unexpected colours");
}

#[test]
fn newline_advances_line() {
    let font = parse(FONT.as_bytes());
    let mut b = surface(16, 24);
    let mut s = Surface::new(&mut b, 16, 24, 16, PixelFormat::Rgbx8888).unwrap();
    s.clear(Color::black());
    let (ex, ey) = draw_text(&mut s, &font, "a\nb", 0, 0, 2, Color::white(), None);
    assert_eq!((ex, ey), (cell_width(2), cell_height(2)));
}

#[test]
fn fallback_glyph_for_out_of_range() {
    // a character outside the printable range uses the replacement glyph (and does not panic)
    let font = parse(FONT.as_bytes());
    let mut b = surface(8, 8);
    let mut s = Surface::new(&mut b, 8, 8, 8, PixelFormat::Rgbx8888).unwrap();
    s.clear(Color::black());
    draw_glyph(&mut s, &font, '\u{2764}', 0, 0, 1, Color::white(), None);
    let lit = (0..8)
        .flat_map(|y| (0..8).map(move |x| (x, y)))
        .filter(|&(x, y)| s.get(x, y) == Color::white())
        .count();
    assert!(lit > 0, "replacement glyph drew nothing");
}

#[test]
fn scaled_glyph_fills_squares() {
    let font = parse(FONT.as_bytes());
    let mut b = surface(16, 16);
    let mut s = Surface::new(&mut b, 16, 16, 16, PixelFormat::Rgbx8888).unwrap();
    s.clear(Color::black());
    draw_glyph(&mut s, &font, 'H', 0, 0, 2, Color::white(), None);
    // 'H' row 0 is ##....## : at scale 2 columns 0..4 and 12..16 are lit on rows 0 and 1
    assert_eq!(s.get(0, 0), Color::white());
    assert_eq!(s.get(3, 1), Color::white());
    assert_eq!(s.get(4, 0), Color::black());
    assert_eq!(s.get(15, 1), Color::white());
    // row 3 is ######## : pixel rows 6 and 7 are lit across
    assert_eq!(s.get(8, 7), Color::white());
    // row 7 is blank
    assert_eq!(s.get(0, 15), Color::black());
}
