//! Binary PPM (`P6`) images: a text header (`P6`, width, height, maximum value) followed by
//! RGB triples. Parsing validates everything and keeps a view of the pixel bytes.
use vstd::prelude::*;
use crate::prefs::digits_value;
use crate::text::{find_byte, lemma_find_byte};

verus! {

/// Largest accepted width or height.
pub const MAX_DIM: u32 = 4096;

/// Decoding errors.
#[derive(Clone, Copy, Debug, PartialEq, Eq, Structural)]
pub enum ImgError {
    /// Does not start with `P6`.
    Magic,
    /// Malformed header (unreadable dimensions or maximum value).
    Header,
    /// Unsupported maximum value (only 255).
    Maxval,
    /// Zero dimension or above `MAX_DIM`.
    Dims,
    /// Pixel bytes missing.
    Truncated,
}

/// A decoded P6 image: a validated view of the pixel bytes of the input.
#[derive(Debug)]
pub struct Ppm<'a> {
    /// Width in pixels.
    pub w: u32,
    /// Height in pixels.
    pub h: u32,
    data: &'a [u8],
}

/// ASCII white space as `u8::is_ascii_whitespace` has it.
pub open spec fn is_space(c: u8) -> bool {
    c == 32u8 || c == 9u8 || c == 10u8 || c == 12u8 || c == 13u8
}

pub open spec fn is_digit(c: u8) -> bool {
    48u8 <= c <= 57u8
}

/// Position after the white space and `#` comments (up to the end of their line) at `i`.
pub open spec fn skip_space(s: Seq<u8>, i: int) -> int
    decreases s.len() - i,
{
    if i < 0 || i >= s.len() {
        i
    } else if is_space(s[i]) {
        skip_space(s, i + 1)
    } else if s[i] == 35u8 {
        proof {
            lemma_find_byte(s, 10u8, i);
        }
        skip_space(s, find_byte(s, 10u8, i))
    } else {
        i
    }
}

/// End of the run of digits that starts at `i`.
pub open spec fn digit_end(s: Seq<u8>, i: int) -> int
    decreases s.len() - i,
{
    if 0 <= i < s.len() && is_digit(s[i]) {
        digit_end(s, i + 1)
    } else {
        i
    }
}

/// The decimal number at `i` and the position after it.
pub open spec fn number_at(s: Seq<u8>, i: int) -> Result<(u32, int), ImgError> {
    let j = digit_end(s, i);
    if j == i || digits_value(s.subrange(i, j)) > u32::MAX {
        Err(ImgError::Header)
    } else {
        Ok((digits_value(s.subrange(i, j)) as u32, j))
    }
}

/// What parsing `s` gives: width, height and the range of the pixel bytes, or the error.
pub open spec fn ppm_spec(s: Seq<u8>) -> Result<(u32, u32, int, int), ImgError> {
    if s.len() < 2 || s[0] != 80u8 || s[1] != 54u8 {
        Err(ImgError::Magic)
    } else {
        match number_at(s, skip_space(s, 2)) {
            Err(e) => Err(e),
            Ok((w, i1)) => match number_at(s, skip_space(s, i1)) {
                Err(e) => Err(e),
                Ok((h, i2)) => match number_at(s, skip_space(s, i2)) {
                    Err(e) => Err(e),
                    Ok((maxval, i)) => if maxval != 255 {
                        Err(ImgError::Maxval)
                    } else if w == 0 || h == 0 || w > MAX_DIM || h > MAX_DIM {
                        Err(ImgError::Dims)
                    } else if i >= s.len() || !is_space(s[i]) {
                        Err(ImgError::Header)
                    } else if s.len() < i + 1 + w * h * 3 {
                        Err(ImgError::Truncated)
                    } else {
                        Ok((w, h, i + 1, i + 1 + w * h * 3))
                    },
                },
            },
        }
    }
}

impl<'a> View for Ppm<'a> {
    type V = (u32, u32, Seq<u8>);

    /// Width, height and the pixel bytes.
    closed spec fn view(&self) -> (u32, u32, Seq<u8>) {
        (self.w, self.h, self.data@)
    }
}

impl<'a> Ppm<'a> {
    /// The pixel bytes hold exactly `w * h` triples.
    pub closed spec fn wf(&self) -> bool {
        self.data@.len() == self.w * self.h * 3
    }

    /// Validates `bytes` as a P6 image.
    pub fn parse(bytes: &'a [u8]) -> (r: Result<Ppm<'a>, ImgError>)
        ensures
            match ppm_spec(bytes@) {
                Ok((w, h, lo, hi)) => r matches Ok(p) && p@ == (w, h, bytes@.subrange(lo, hi)) && p.wf(),
                Err(e) => r == Err::<Ppm<'a>, ImgError>(e),
            },
    {
        let s = Ghost(bytes@);
        if bytes.len() < 2 || bytes[0] != 80u8 || bytes[1] != 54u8 {
            return Err(ImgError::Magic);
        }
        let i = skip_ws(bytes, 2);
        let (w, i) = match read_u32(bytes, i) {
            Ok(x) => x,
            Err(e) => { return Err(e); },
        };
        let i = skip_ws(bytes, i);
        let (h, i) = match read_u32(bytes, i) {
            Ok(x) => x,
            Err(e) => { return Err(e); },
        };
        let i = skip_ws(bytes, i);
        let (maxval, i) = match read_u32(bytes, i) {
            Ok(x) => x,
            Err(e) => { return Err(e); },
        };
        if maxval != 255 {
            return Err(ImgError::Maxval);
        }
        if w == 0 || h == 0 || w > MAX_DIM || h > MAX_DIM {
            return Err(ImgError::Dims);
        }
        if i >= bytes.len() || !is_space_byte(bytes[i]) {
            return Err(ImgError::Header);
        }
        let px = i + 1;
        assert(w * h <= 4096 * 4096) by (nonlinear_arith)
            requires w <= 4096, h <= 4096;
        let need = (w as usize) * (h as usize) * 3;
        assert(need == w * h * 3);
        if bytes.len() - px < need {
            return Err(ImgError::Truncated);
        }
        let data = vstd::slice::slice_subrange(bytes, px, px + need);
        Ok(Ppm { w, h, data })
    }

    /// Pixel `(x, y)` as `(r, g, b)`; black outside the image.
    pub fn pixel(&self, x: u32, y: u32) -> (r: (u8, u8, u8))
        requires
            self.wf(),
        ensures
            x >= self@.0 || y >= self@.1 ==> r == (0u8, 0u8, 0u8),
            x < self@.0 && y < self@.1 ==> ({
                let o = (y * self@.0 + x) * 3;
                r == (self@.2[o], self@.2[o + 1], self@.2[o + 2])
            }),
    {
        if x >= self.w || y >= self.h {
            return (0, 0, 0);
        }
        assert((y * self.w + x) * 3 + 3 <= self.w * self.h * 3) by (nonlinear_arith)
            requires x < self.w, y < self.h;
        let n = self.data.len();
        assert(y * self.w <= (y * self.w + x) * 3) by (nonlinear_arith);
        let o = ((y as usize) * (self.w as usize) + (x as usize)) * 3;
        (self.data[o], self.data[o + 1], self.data[o + 2])
    }

    /// The raw RGB triples, row after row.
    pub fn data(&self) -> (r: &'a [u8])
        ensures
            r@ == self@.2,
    {
        self.data
    }
}

fn is_space_byte(c: u8) -> (r: bool)
    ensures
        r == is_space(c),
{
    c == 32u8 || c == 9u8 || c == 10u8 || c == 12u8 || c == 13u8
}

/// Skips white space and comments from `i`.
fn skip_ws(bytes: &[u8], from: usize) -> (r: usize)
    requires
        from <= bytes.len(),
    ensures
        r == skip_space(bytes@, from as int),
        from <= r <= bytes.len(),
{
    let mut i = from;
    let ghost start = from;
    loop
        invariant
            start == from,
            start <= i <= bytes.len(),
            skip_space(bytes@, start as int) == skip_space(bytes@, i as int),
        decreases bytes.len() - i,
    {
        if i < bytes.len() && is_space_byte(bytes[i]) {
            i += 1;
        } else if i < bytes.len() && bytes[i] == 35u8 {
            let j = crate::text::find_byte_in(bytes, 10u8, i, bytes.len());
            assert(bytes@.subrange(0, bytes@.len() as int) =~= bytes@);
            proof {
                lemma_find_byte(bytes@, 10u8, i as int);
            }
            i = j;
        } else {
            return i;
        }
    }
}

/// Reads a decimal number at `i`.
fn read_u32(bytes: &[u8], i: usize) -> (r: Result<(u32, usize), ImgError>)
    requires
        i <= bytes.len(),
    ensures
        match number_at(bytes@, i as int) {
            Ok((v, j)) => i < j <= bytes.len() && r == Ok::<(u32, usize), ImgError>((v, j as usize)),
            Err(e) => r == Err::<(u32, usize), ImgError>(e),
        },
{
    let ghost s = bytes@;
    let start = i;
    let mut i = i;
    let mut v: u32 = 0;
    let mut overflow = false;
    while i < bytes.len() && 48u8 <= bytes[i] && bytes[i] <= 57u8
        invariant
            start <= i <= bytes.len(),
            digit_end(s, start as int) == digit_end(s, i as int),
            s == bytes@,
            forall|k: int| start <= k < i ==> is_digit(#[trigger] s[k]),
            !overflow ==> v == digits_value(s.subrange(start as int, i as int)),
            overflow ==> digits_value(s.subrange(start as int, i as int)) > u32::MAX,
        decreases bytes.len() - i,
    {
        let ghost t = s.subrange(start as int, i + 1);
        assert(t.drop_last() =~= s.subrange(start as int, i as int));
        let d = (bytes[i] - 48u8) as u32;
        if !overflow {
            match v.checked_mul(10) {
                Some(m) => match m.checked_add(d) {
                    Some(a) => { v = a; },
                    None => { overflow = true; },
                },
                None => {
                    overflow = true;
                },
            }
        }
        i += 1;
    }
    if i == start {
        return Err(ImgError::Header);
    }
    if overflow {
        return Err(ImgError::Header);
    }
    Ok((v, i))
}

} // verus!
