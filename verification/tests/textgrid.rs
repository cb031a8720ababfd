use lib::textgrid::evdev_char;

#[test]
fn evdev_map_covers_test_keys() {
    assert_eq!(evdev_char(30), Some(b'a'));
    assert_eq!(evdev_char(28), Some(b'\n'));
    assert_eq!(evdev_char(14), Some(0x08));
    assert_eq!(evdev_char(57), Some(b' '));
    assert_eq!(evdev_char(60), None);
}

#[test]
fn evdev_rows_of_letters_and_digits() {
    assert_eq!(evdev_char(2), Some(b'1'));
    assert_eq!(evdev_char(11), Some(b'0'));
    assert_eq!(evdev_char(16), Some(b'q'));
    assert_eq!(evdev_char(44), Some(b'z'));
    assert_eq!(evdev_char(0), None);
    assert_eq!(evdev_char(u16::MAX), None);
}

use lib::textgrid::Grid;

#[test]
fn wraps_scrolls_and_backspaces() {
    let mut g: Grid<4, 2> = Grid::new();
    g.feed_all(b"abcdef");
    assert_eq!(&g.cells[0], b"abcd");
    assert_eq!(&g.cells[1], b"ef  ");
    g.feed_all(b"\r\n");
    assert_eq!(&g.cells[0], b"ef  ");
    assert_eq!(&g.cells[1], b"    ");
    g.feed_all(b"x\x08y");
    assert_eq!(&g.cells[1], b"y   ");
    assert_eq!((g.cx, g.cy), (1, 1));
}

#[test]
fn shell_banner_layout_is_stable() {
    let mut g: Grid<8, 6> = Grid::new();
    g.feed_all(b"\r\nNexo OS - shell de diagnostico (digite 'ajuda')\r\n> ");
    g.feed_all(b"eco ola\r\nola\r\n> ");
    assert!((0..6).rev().any(|r| &g.cells[r] == b"ola     "));
}

#[test]
fn scrolled_counts_lines_that_left_the_top() {
    let mut g: Grid<4, 2> = Grid::new();
    g.feed_all(b"a\nb\nc\n");
    assert_eq!(g.scrolled, 2);
    assert_eq!((g.cx, g.cy), (0, 1));
    assert_eq!(g.scrolled + g.cy, 3);
    assert_eq!(&g.cells[0], b"c   ");
    let mut g: Grid<2, 2> = Grid::new();
    g.feed_all(b"abcde");
    assert_eq!(g.scrolled, 1);
    assert_eq!(&g.cells[1], b"e ");
}

#[test]
fn bare_newline_returns_the_column() {
    let mut g: Grid<8, 3> = Grid::new();
    g.feed_all(b"ola\nmundo");
    assert_eq!(&g.cells[0], b"ola     ");
    assert_eq!(&g.cells[1], b"mundo   ");
    assert_eq!((g.cx, g.cy), (5, 1));
}

#[test]
fn control_bytes_are_ignored_and_backspace_stops_at_the_edge() {
    let mut g: Grid<3, 2> = Grid::default();
    g.feed(0x08);
    assert_eq!((g.cx, g.cy), (0, 0));
    g.feed(0x07);
    g.feed(0x7f);
    g.feed(b'z');
    assert_eq!(&g.cells[0], b"z  ");
    assert_eq!((g.cx, g.cy, g.scrolled), (1, 0, 0));
}
