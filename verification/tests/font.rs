use lib::font::{glyph, parse, GLYPH_COUNT, GLYPH_HEIGHT, GLYPH_WIDTH};

const SAMPLE: &str = "\
font sample
#41
..####..
.##..##.
##....##
.######.
##....##
##....##
##....##
........
#5F
........
........
........
........
........
........
........
.######.
#7F
.######.
##....##
##....##
##....##
##....##
##....##
.######.
........
#7c
...##...
...##...
";

#[test]
fn parses_glyph_rows_from_ascii_art() {
    let g = parse(SAMPLE.as_bytes());
    assert_eq!(GLYPH_COUNT, 96);
    assert_eq!((GLYPH_WIDTH, GLYPH_HEIGHT), (8, 8));
    assert_eq!(glyph(&g, ' '), &[0; 8]);
    assert_eq!(glyph(&g, 'A')[0], 0b0011_1100);
    assert_eq!(glyph(&g, 'A')[3], 0b0111_1110);
    assert_eq!(glyph(&g, '_')[7], 0b0111_1110);
    assert_eq!(glyph(&g, '|')[0], 0b0001_1000);
    // a glyph cut short keeps its other rows blank
    assert_eq!(glyph(&g, '|')[2], 0);
    // characters outside the printable range use the replacement glyph
    assert_eq!(glyph(&g, '\u{e9}'), glyph(&g, '\u{7f}'));
    assert_eq!(glyph(&g, '\u{7f}')[0], 0b0111_1110);
}

#[test]
fn hex_codes_in_either_case_and_short_headers() {
    let g = parse(b"#4a\n#.......\n");
    assert_eq!(glyph(&g, 'J')[0], 0b1000_0000);
    let g = parse(b"#4A\n.......#\n");
    assert_eq!(glyph(&g, 'J')[0], 0b0000_0001);
    // "#4" at the very end is too short to start a glyph
    assert_eq!(parse(b"\n#4"), [[0u8; 8]; 96]);
}

#[test]
fn rows_are_cut_at_eight_columns_and_codes_out_of_range_are_dropped() {
    let g = parse(b"#21\n##########\n#10\n########\n");
    assert_eq!(glyph(&g, '!')[0], 0xff);
    // the line after the first row belongs to '!' as well, even though it starts with '#'
    assert_eq!(glyph(&g, '!')[1], 0b1110_0000);
    assert_eq!(glyph(&g, '!')[2], 0xff);
    assert_eq!(glyph(&g, '!')[3], 0);
    // code 0x10 lies outside the table: nothing is kept
    assert_eq!(parse(b"#10\n########\n"), [[0u8; 8]; 96]);
    assert_eq!(parse(b""), [[0u8; 8]; 96]);
}
