use lib::gfx::{Color, PixelFormat, Rect, Surface};
use lib::wm::{composite, Damage, Window, MAX_DAMAGE};

fn win_buf(w: i32, h: i32, c: Color, fmt: PixelFormat) -> Vec<u8> {
    let mut b = vec![0u8; (w * h * 4) as usize];
    let mut s = Surface::new(&mut b, w as u32, h as u32, w as u32, fmt).unwrap();
    s.clear(c);
    b
}

#[test]
fn z_order_front_wins_overlap() {
    let mut out_buf = vec![0u8; 8 * 8 * 4];
    let mut out = Surface::new(&mut out_buf, 8, 8, 8, PixelFormat::Rgbx8888).unwrap();
    let red = win_buf(4, 4, Color::rgb(255, 0, 0), PixelFormat::Rgbx8888);
    let green = win_buf(4, 4, Color::rgb(0, 255, 0), PixelFormat::Rgbx8888);
    let windows = [
        Window {
            rect: Rect::new(0, 0, 4, 4),
            z: 0,
            pixels: &red,
            stride: 4,
            format: PixelFormat::Rgbx8888,
            alpha: 255,
        },
        Window {
            rect: Rect::new(2, 2, 4, 4),
            z: 1,
            pixels: &green,
            stride: 4,
            format: PixelFormat::Rgbx8888,
            alpha: 255,
        },
    ];
    composite(&mut out, &windows, Rect::new(0, 0, 8, 8), Color::rgb(0, 0, 40));
    assert_eq!(out.get(0, 0), Color::rgb(255, 0, 0)); // red alone
    assert_eq!(out.get(3, 3), Color::rgb(0, 255, 0)); // overlap: green (greater z) in front
    assert_eq!(out.get(5, 5), Color::rgb(0, 255, 0)); // green alone
    assert_eq!(out.get(7, 7), Color::rgb(0, 0, 40)); // background
}

#[test]
fn per_window_alpha_blends_over_below() {
    let mut out_buf = vec![0u8; 8 * 8 * 4];
    let mut out = Surface::new(&mut out_buf, 8, 8, 8, PixelFormat::Rgbx8888).unwrap();
    let red = win_buf(8, 8, Color::rgb(255, 0, 0), PixelFormat::Rgbx8888);
    let green = win_buf(4, 4, Color::rgb(0, 255, 0), PixelFormat::Rgbx8888);
    let windows = [
        Window {
            rect: Rect::new(0, 0, 8, 8),
            z: 0,
            pixels: &red,
            stride: 8,
            format: PixelFormat::Rgbx8888,
            alpha: 255, // opaque backdrop
        },
        Window {
            rect: Rect::new(0, 0, 4, 4),
            z: 1,
            pixels: &green,
            stride: 4,
            format: PixelFormat::Rgbx8888,
            alpha: 128, // about half: translucent green over the red
        },
    ];
    composite(&mut out, &windows, Rect::new(0, 0, 8, 8), Color::black());
    // overlap: about half green over red, roughly (127,128,0)
    let c = out.get(1, 1);
    assert!((c.r as i32 - 127).abs() <= 2, "r={}", c.r);
    assert!((c.g as i32 - 128).abs() <= 2, "g={}", c.g);
    assert_eq!(c.b, 0);
    // outside the green: opaque red untouched
    assert_eq!(out.get(6, 6), Color::rgb(255, 0, 0));
}

#[test]
fn z_order_independent_of_input_order() {
    let mut out_buf = vec![0u8; 4 * 4 * 4];
    let mut out = Surface::new(&mut out_buf, 4, 4, 4, PixelFormat::Rgbx8888).unwrap();
    let a = win_buf(4, 4, Color::rgb(10, 0, 0), PixelFormat::Rgbx8888);
    let b = win_buf(4, 4, Color::rgb(0, 20, 0), PixelFormat::Rgbx8888);
    // given out of stacking order: b (z=5) before a (z=1); b is in front
    let windows = [
        Window {
            rect: Rect::new(0, 0, 4, 4),
            z: 5,
            pixels: &b,
            stride: 4,
            format: PixelFormat::Rgbx8888,
            alpha: 255,
        },
        Window {
            rect: Rect::new(0, 0, 4, 4),
            z: 1,
            pixels: &a,
            stride: 4,
            format: PixelFormat::Rgbx8888,
            alpha: 255,
        },
    ];
    composite(&mut out, &windows, Rect::new(0, 0, 4, 4), Color::black());
    assert_eq!(out.get(1, 1), Color::rgb(0, 20, 0));
}

#[test]
fn damage_limits_repaint() {
    let mut out_buf = vec![0u8; 8 * 8 * 4];
    let mut out = Surface::new(&mut out_buf, 8, 8, 8, PixelFormat::Rgbx8888).unwrap();
    out.clear(Color::rgb(1, 2, 3)); // earlier content
    let white = win_buf(8, 8, Color::white(), PixelFormat::Rgbx8888);
    let windows = [Window {
        rect: Rect::new(0, 0, 8, 8),
        z: 0,
        pixels: &white,
        stride: 8,
        format: PixelFormat::Rgbx8888,
        alpha: 255,
    }];
    composite(&mut out, &windows, Rect::new(2, 2, 3, 3), Color::black());
    // outside the damage: earlier content intact
    assert_eq!(out.get(0, 0), Color::rgb(1, 2, 3));
    assert_eq!(out.get(6, 6), Color::rgb(1, 2, 3));
    // inside the damage: composed again (the window's white)
    assert_eq!(out.get(3, 3), Color::white());
}

#[test]
fn damage_accumulation_and_coalesce() {
    let mut d = Damage::new();
    assert!(d.is_empty());
    d.add(Rect::new(0, 0, 0, 0)); // empty one ignored
    assert!(d.is_empty());
    d.add(Rect::new(1, 1, 2, 2));
    d.add(Rect::new(5, 5, 1, 1));
    assert_eq!(d.rects().len(), 2);
    assert_eq!(d.bounds(), Rect::new(1, 1, 5, 5));
    // fill up and merge
    for i in 0..MAX_DAMAGE + 4 {
        d.add(Rect::new(i as i32, 0, 1, 1));
    }
    assert!(d.rects().len() <= MAX_DAMAGE);
    let b = d.bounds();
    assert!(b.contains(0, 0) && b.w >= MAX_DAMAGE as i32);
    d.clear();
    assert!(d.is_empty());
}

#[test]
fn equal_stacking_keeps_the_given_order() {
    let mut out_buf = vec![0u8; 2 * 2 * 4];
    let mut out = Surface::new(&mut out_buf, 2, 2, 2, PixelFormat::Rgbx8888).unwrap();
    let a = win_buf(2, 2, Color::rgb(1, 0, 0), PixelFormat::Rgbx8888);
    let b = win_buf(2, 2, Color::rgb(0, 2, 0), PixelFormat::Rgbx8888);
    let windows = [
        Window { rect: Rect::new(0, 0, 2, 2), z: 3, pixels: &a, stride: 2, format: PixelFormat::Rgbx8888, alpha: 255 },
        Window { rect: Rect::new(0, 0, 2, 2), z: 3, pixels: &b, stride: 2, format: PixelFormat::Rgbx8888, alpha: 255 },
    ];
    composite(&mut out, &windows, Rect::new(0, 0, 2, 2), Color::black());
    // same z: the later one is drawn last
    assert_eq!(out.get(0, 0), Color::rgb(0, 2, 0));
}

#[test]
fn bgr_window_and_invisible_window() {
    let mut out_buf = vec![0u8; 2 * 1 * 4];
    let mut out = Surface::new(&mut out_buf, 2, 1, 2, PixelFormat::Rgbx8888).unwrap();
    let bgr = vec![30u8, 20, 10, 0, 30, 20, 10, 0];
    let hidden = win_buf(2, 1, Color::white(), PixelFormat::Rgbx8888);
    let windows = [
        Window { rect: Rect::new(0, 0, 2, 1), z: 0, pixels: &bgr, stride: 2, format: PixelFormat::Bgrx8888, alpha: 255 },
        Window { rect: Rect::new(0, 0, 2, 1), z: 9, pixels: &hidden, stride: 2, format: PixelFormat::Rgbx8888, alpha: 0 },
    ];
    composite(&mut out, &windows, Rect::new(-5, -5, 50, 50), Color::black());
    assert_eq!(out.get(1, 0), Color::rgb(10, 20, 30));
    assert_eq!(out.clip(), Rect::new(0, 0, 2, 1));
}

#[test]
fn damage_outside_the_surface_draws_nothing() {
    let mut out_buf = vec![0u8; 2 * 2 * 4];
    let mut out = Surface::new(&mut out_buf, 2, 2, 2, PixelFormat::Rgbx8888).unwrap();
    out.clear(Color::rgb(4, 5, 6));
    composite(&mut out, &[], Rect::new(10, 10, 3, 3), Color::white());
    assert_eq!(out.get(1, 1), Color::rgb(4, 5, 6));
}

#[test]
fn damage_bounds_of_nothing_is_the_origin() {
    let d = Damage::default();
    assert_eq!(d.bounds(), Rect::new(0, 0, 0, 0));
    assert!(d.rects().is_empty());
}
