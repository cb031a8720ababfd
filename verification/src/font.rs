//! The 8x8 bitmap font: glyphs are written as ASCII art (`.` off, any other byte on), each
//! introduced by a line `#XY` with its code in hexadecimal, and read into a table of bit rows.
//! Codes 0x20..=0x7F are kept; any other character uses the replacement glyph 0x7F.
use vstd::prelude::*;

verus! {

/// Width of a glyph in pixels.
pub const GLYPH_WIDTH: usize = 8;

/// Height of a glyph in pixels.
pub const GLYPH_HEIGHT: usize = 8;

/// Number of glyphs (0x20..=0x7F).
pub const GLYPH_COUNT: usize = 96;

/// Value of a hexadecimal digit; 0 for any other byte.
pub open spec fn hex_spec(c: u8) -> u8 {
    if 0x30 <= c <= 0x39 {
        (c - 0x30) as u8
    } else if 0x61 <= c <= 0x66 {
        (c - 0x61 + 10) as u8
    } else if 0x41 <= c <= 0x46 {
        (c - 0x41 + 10) as u8
    } else {
        0
    }
}

/// Index of the end of the line that holds position `i`: its newline, or the end of `s`.
pub open spec fn eol(s: Seq<u8>, i: int) -> int
    decreases s.len() - i,
{
    if i >= s.len() || s[i] == 0x0a {
        i
    } else {
        eol(s, i + 1)
    }
}

/// Bits of a glyph row read from position `i`: the first `8 - col` bytes before the end of
/// the line, bit 7 for the leftmost pixel; `acc` holds the bits of the columns before `col`.
pub open spec fn row_bits(s: Seq<u8>, i: int, col: int, acc: u8) -> u8
    decreases s.len() - i,
{
    if col >= 8 || i < 0 || i >= s.len() || s[i] == 0x0a {
        acc
    } else {
        row_bits(s, i + 1, col + 1, if s[i] != 0x2e { acc | (1u8 << ((7 - col) as u8)) } else { acc })
    }
}

/// Table `g` with row `row` of glyph `code` set to `bits`, where `code` is a kept code.
pub open spec fn set_row(g: Seq<Seq<u8>>, code: int, row: int, bits: u8) -> Seq<Seq<u8>> {
    if 0x20 <= code <= 0x7f {
        g.update(code - 0x20, g[code - 0x20].update(row, bits))
    } else {
        g
    }
}

/// Reads glyph rows `row..8` of `code` from position `i`, one line each, until the end of
/// `s`; gives the position after them and the table.
pub open spec fn glyph_rows(s: Seq<u8>, i: int, code: int, row: int, g: Seq<Seq<u8>>) -> (int, Seq<Seq<u8>>)
    decreases 8 - row,
{
    if row >= 8 || i >= s.len() {
        (i, g)
    } else {
        let bits = row_bits(s, i, 0, 0);
        glyph_rows(s, eol(s, i) + 1, code, row + 1, set_row(g, code, row, bits))
    }
}

/// Reads the font text from position `i` into table `g`: a line `#XY` (with at least two bytes
/// after `#`) starts glyph `0xXY`, whose rows follow; every other line is skipped.
pub open spec fn parse_from(s: Seq<u8>, i: int, g: Seq<Seq<u8>>) -> Seq<Seq<u8>>
    decreases s.len() + 1 - i,
{
    if i >= s.len() || i < 0 {
        g
    } else if s[i] == 0x23 && i + 2 < s.len() {
        let code = hex_spec(s[i + 1]) * 16 + hex_spec(s[i + 2]);
        let (j, g2) = glyph_rows(s, eol(s, i) + 1, code, 0, g);
        if j <= i || j > s.len() + 1 {
            g
        } else {
            parse_from(s, j, g2)
        }
    } else {
        let e = eol(s, i);
        if e < i || e > s.len() {
            g
        } else {
            parse_from(s, e + 1, g)
        }
    }
}

/// The table of blank glyphs.
pub open spec fn blank() -> Seq<Seq<u8>> {
    Seq::new(96, |k: int| Seq::new(8, |r: int| 0u8))
}

/// The glyph table read from the font text `s`.
pub open spec fn parse_spec(s: Seq<u8>) -> Seq<Seq<u8>> {
    parse_from(s, 0, blank())
}

/// The glyph table as rows of bits.
pub open spec fn table(g: [[u8; 8]; 96]) -> Seq<Seq<u8>> {
    Seq::new(96, |k: int| g@[k]@)
}

/// Index of the glyph of `c`: its code less 0x20 if printable, else the replacement glyph.
pub open spec fn glyph_index(c: char) -> int {
    if 0x20 <= (c as u32) < 0x7f {
        (c as u32) - 0x20
    } else {
        95
    }
}

proof fn lemma_eol_range(s: Seq<u8>, i: int)
    requires
        0 <= i,
    ensures
        i <= eol(s, i),
        i <= s.len() ==> eol(s, i) <= s.len(),
        eol(s, i) < s.len() ==> s[eol(s, i)] == 0x0a,
    decreases s.len() - i,
{
    if !(i >= s.len() || s[i] == 0x0a) {
        lemma_eol_range(s, i + 1);
    }
}

proof fn lemma_glyph_rows_advance(s: Seq<u8>, i: int, code: int, row: int, g: Seq<Seq<u8>>)
    requires
        0 <= i,
        0 <= row,
    ensures
        glyph_rows(s, i, code, row, g).0 >= i,
        (row < 8 && i < s.len()) ==> glyph_rows(s, i, code, row, g).0 > i,
        i <= s.len() + 1 ==> glyph_rows(s, i, code, row, g).0 <= s.len() + 1,
    decreases 8 - row,
{
    if !(row >= 8 || i >= s.len()) {
        lemma_eol_range(s, i);
        let bits = row_bits(s, i, 0, 0);
        lemma_glyph_rows_advance(s, eol(s, i) + 1, code, row + 1, set_row(g, code, row, bits));
    }
}

/// Value of a hexadecimal digit (0 for any other byte).
fn hex(c: u8) -> (r: u8)
    ensures
        r == hex_spec(c),
{
    if 0x30 <= c && c <= 0x39 {
        c - 0x30
    } else if 0x61 <= c && c <= 0x66 {
        c - 0x61 + 10
    } else if 0x41 <= c && c <= 0x46 {
        c - 0x41 + 10
    } else {
        0
    }
}

/// Position of the end of the line that holds `i`.
fn line_end(src: &[u8], i: usize) -> (r: usize)
    requires
        i <= src@.len(),
    ensures
        r == eol(src@, i as int),
        i <= r <= src@.len(),
{
    let mut j = i;
    proof {
        lemma_eol_range(src@, i as int);
    }
    while j < src.len() && src[j] != 0x0a
        invariant
            i <= j <= src@.len(),
            eol(src@, j as int) == eol(src@, i as int),
        decreases src@.len() - j,
    {
        j = j + 1;
    }
    j
}

/// Bits of the glyph row that starts at `i`.
fn read_row(src: &[u8], i: usize) -> (bits: u8)
    requires
        i <= src@.len(),
    ensures
        bits == row_bits(src@, i as int, 0, 0),
{
    let mut bits: u8 = 0;
    let mut col: u32 = 0;
    let mut j = i;
    while col < 8 && j < src.len() && src[j] != 0x0a
        invariant
            i <= j <= src@.len(),
            col <= 8,
            row_bits(src@, j as int, col as int, bits) == row_bits(src@, i as int, 0, 0),
        decreases src@.len() - j,
    {
        if src[j] != 0x2e {
            bits = bits | (1u8 << ((7 - col) as u8));
        }
        col = col + 1;
        j = j + 1;
    }
    bits
}

/// Reads the font text `src` into a glyph table (see `parse_from` for the format).
pub fn parse(src: &[u8]) -> (glyphs: [[u8; 8]; 96])
    requires
        src@.len() <= isize::MAX,
    ensures
        table(glyphs) == parse_spec(src@),
{
    let mut glyphs = [[0u8; 8]; 96];
    let ghost s = src@;
    proof {
        assert(table(glyphs) =~= blank()) by {
            assert forall|k: int| 0 <= k < 96 implies table(glyphs)[k] =~= blank()[k] by {}
        }
    }
    let mut i: usize = 0;
    while i < src.len()
        invariant
            s == src@,
            s.len() <= isize::MAX,
            i <= s.len() + 1,
            parse_from(s, i as int, table(glyphs)) == parse_spec(s),
        decreases s.len() + 1 - i,
    {
        if src[i] == 0x23 && src.len() - i > 2 {
            let code: usize = (hex(src[i + 1]) as usize) * 16 + hex(src[i + 2]) as usize;
            let ghost g0 = table(glyphs);
            let ghost start = eol(s, i as int) + 1;
            i = line_end(src, i) + 1;
            proof {
                lemma_eol_range(s, i as int);
                lemma_glyph_rows_advance(s, start, code as int, 0, g0);
            }
            let mut row: usize = 0;
            while row < 8 && i < src.len()
                invariant
                    s == src@,
                    s.len() <= isize::MAX,
                    row <= 8,
                    start <= i <= s.len() + 1,
                    code < 256,
                    glyph_rows(s, i as int, code as int, row as int, table(glyphs)) == glyph_rows(
                        s,
                        start,
                        code as int,
                        0,
                        g0,
                    ),
                decreases 8 - row,
            {
                let bits = read_row(src, i);
                i = line_end(src, i) + 1;
                if code >= 0x20 && code <= 0x7f {
                    let ghost before = table(glyphs);
                    glyphs[code - 0x20][row] = bits;
                    proof {
                        assert(table(glyphs) =~= set_row(before, code as int, row as int, bits));
                    }
                }
                row = row + 1;
            }
        } else {
            proof {
                lemma_eol_range(s, i as int);
            }
            i = line_end(src, i) + 1;
        }
    }
    glyphs
}

/// Glyph of `c` (the replacement glyph outside 0x20..=0x7E).
pub fn glyph(glyphs: &[[u8; 8]; 96], c: char) -> (g: &[u8; 8])
    ensures
        g@ == table(*glyphs)[glyph_index(c)],
{
    let code = c as u32;
    if 0x20 <= code && code < 0x7f {
        &glyphs[(code - 0x20) as usize]
    } else {
        &glyphs[GLYPH_COUNT - 1]
    }
}

} // verus!
