//! The text grid shared by the terminal and the editor: automatic wrap at `C` columns,
//! `\r`, `\n`, backspace and scrolling (the new line starts blank); and the small evdev (key
//! press) to ASCII map used by text consumers.
use vstd::prelude::*;

verus! {

/// Letters of the top, middle and bottom rows and the digits 1..9, in key-code order.
pub open spec fn key_row(code: int) -> Option<u8> {
    if 16 <= code <= 25 {
        Some(seq![113u8, 119u8, 101u8, 114u8, 116u8, 121u8, 117u8, 105u8, 111u8, 112u8][code - 16])
    } else if 30 <= code <= 38 {
        Some(seq![97u8, 115u8, 100u8, 102u8, 103u8, 104u8, 106u8, 107u8, 108u8][code - 30])
    } else if 44 <= code <= 50 {
        Some(seq![122u8, 120u8, 99u8, 118u8, 98u8, 110u8, 109u8][code - 44])
    } else if 2 <= code <= 10 {
        Some((48 + code - 1) as u8)
    } else if code == 11 {
        Some(48u8)
    } else if code == 57 {
        Some(32u8)
    } else if code == 28 {
        Some(10u8)
    } else if code == 14 {
        Some(8u8)
    } else {
        None
    }
}

/// ASCII for an evdev key code (press); `None` for keys that are no text.
pub fn evdev_char(code: u16) -> (r: Option<u8>)
    ensures
        r == key_row(code as int),
{
    let top: [u8; 10] = [113u8, 119u8, 101u8, 114u8, 116u8, 121u8, 117u8, 105u8, 111u8, 112u8];
    let home: [u8; 9] = [97u8, 115u8, 100u8, 102u8, 103u8, 104u8, 106u8, 107u8, 108u8];
    let bottom: [u8; 7] = [122u8, 120u8, 99u8, 118u8, 98u8, 110u8, 109u8];
    if 16 <= code && code <= 25 {
        Some(top[(code - 16) as usize])
    } else if 30 <= code && code <= 38 {
        Some(home[(code - 30) as usize])
    } else if 44 <= code && code <= 50 {
        Some(bottom[(code - 44) as usize])
    } else if 2 <= code && code <= 10 {
        Some((48 + code - 1) as u8)
    } else if code == 11 {
        Some(48u8)
    } else if code == 57 {
        Some(32u8)
    } else if code == 28 {
        Some(10u8)
    } else if code == 14 {
        Some(8u8)
    } else {
        None
    }
}

/// A grid of `C` columns by `R` rows.
pub struct Grid<const C: usize, const R: usize> {
    /// Cells (space = empty).
    pub cells: [[u8; C]; R],
    /// Cursor column.
    pub cx: usize,
    /// Cursor row (in the grid).
    pub cy: usize,
    /// How many lines left the top: `scrolled + cy` is the cursor's absolute line in the text
    /// fed so far.
    pub scrolled: usize,
}

/// A blank row.
pub open spec fn blank_row(c: nat) -> Seq<u8> {
    Seq::new(c, |i: int| 32u8)
}

/// The state of a grid: rows, cursor column and row, lines scrolled away.
pub type GridState = (Seq<Seq<u8>>, int, int, int);

/// Moving to the next row; at the bottom the grid scrolls and the new last row is blank.
pub open spec fn newline_spec(st: GridState, c: nat) -> GridState {
    let (rows, cx, cy, sc) = st;
    if cy + 1 == rows.len() {
        (rows.subrange(1, rows.len() as int).push(blank_row(c)), cx, cy, sc + 1)
    } else {
        (rows, cx, cy + 1, sc)
    }
}

/// Feeding one byte: a printable byte fills the cell and advances (wrapping), `\r` returns to
/// the start of the row, `\n` goes down and returns to the start, `0x08` steps back; anything
/// else is ignored.
pub open spec fn feed_spec(st: GridState, c: nat, b: u8) -> GridState {
    let (rows, cx, cy, sc) = st;
    if b == 13 {
        (rows, 0, cy, sc)
    } else if b == 10 {
        newline_spec((rows, 0, cy, sc), c)
    } else if b == 8 {
        (rows, if cx > 0 { cx - 1 } else { 0 }, cy, sc)
    } else if 0x20 <= b <= 0x7e {
        let rows2 = rows.update(cy, rows[cy].update(cx, b));
        if cx + 1 == c {
            newline_spec((rows2, 0, cy, sc), c)
        } else {
            (rows2, cx + 1, cy, sc)
        }
    } else {
        st
    }
}

/// Feeding bytes `bs` in order.
pub open spec fn feed_all_spec(st: GridState, c: nat, bs: Seq<u8>) -> GridState
    decreases bs.len(),
{
    if bs.len() == 0 {
        st
    } else {
        feed_spec(feed_all_spec(st, c, bs.drop_last()), c, bs.last())
    }
}

impl<const C: usize, const R: usize> Grid<C, R> {
    /// The rows, the cursor and the count of lines scrolled away.
    pub open spec fn state(&self) -> GridState {
        (self.cells@.map_values(|r: [u8; C]| r@), self.cx as int, self.cy as int, self.scrolled as int)
    }

    /// The cursor is on the grid.
    pub open spec fn wf(&self) -> bool {
        &&& C > 0
        &&& R > 0
        &&& self.cx < C
        &&& self.cy < R
    }

    /// An empty grid with the cursor at (0, 0).
    pub fn new() -> (g: Self)
        ensures
            g.state() == (Seq::new(R as nat, |i: int| blank_row(C as nat)), 0int, 0int, 0int),
    {
        let g = Grid { cells: [[32u8; C]; R], cx: 0, cy: 0, scrolled: 0 };
        assert(g.state().0 =~= Seq::new(R as nat, |i: int| blank_row(C as nat))) by {
            assert forall|i: int| 0 <= i < R implies g.cells@[i]@ =~= blank_row(C as nat) by {}
        }
        g
    }

    fn newline(&mut self)
        requires
            old(self).wf(),
            old(self).scrolled < usize::MAX,
        ensures
            final(self).wf(),
            final(self).state() == newline_spec(old(self).state(), C as nat),
            final(self).cx == old(self).cx,
            old(self).cy + 1 < R ==> final(self).cells@ == old(self).cells@ && final(self).cy == old(self).cy + 1
                && final(self).scrolled == old(self).scrolled,
            old(self).cy + 1 == R ==> final(self).cy == old(self).cy && final(self).scrolled == old(self).scrolled + 1 && (forall|i: int|
                0 <= i < R - 1 ==> #[trigger] final(self).cells@[i]@ == old(self).cells@[i + 1]@) && final(self).cells@[R - 1]@
                == blank_row(C as nat),
    {
        if self.cy + 1 == R {
            let mut r: usize = 0;
            let ghost rows0 = self.state().0;
            while r + 1 < R
                invariant
                    R > 0,
                    C > 0,
                    self.cx < C,
                    self.cy + 1 == R,
                    self.scrolled == old(self).scrolled,
                    self.cx == old(self).cx,
                    r + 1 <= R,
                    rows0 == old(self).state().0,
                    self.cells@.len() == R,
                    forall|k: int| 0 <= k < r ==> #[trigger] self.cells@[k]@ == rows0[k + 1],
                    forall|k: int| r <= k < R ==> #[trigger] self.cells@[k]@ == rows0[k],
                decreases R - r,
            {
                let next = self.cells[r + 1];
                self.cells[r] = next;
                r += 1;
            }
            let blank = [32u8; C];
            assert(blank@ =~= blank_row(C as nat));
            self.cells[R - 1] = blank;
            self.scrolled = self.scrolled + 1;
            assert forall|k: int| 0 <= k < R implies #[trigger] self.state().0[k] == rows0.subrange(1, rows0.len() as int).push(
                blank_row(C as nat),
            )[k] by {
                if k < R - 1 {
                    assert(self.cells@[k]@ == rows0[k + 1]);
                }
            }
            assert(self.state().0 =~= rows0.subrange(1, rows0.len() as int).push(blank_row(C as nat)));
        } else {
            self.cy = self.cy + 1;
        }
    }

    /// Feeds one byte.
    pub fn feed(&mut self, b: u8)
        requires
            old(self).wf(),
            old(self).scrolled < usize::MAX,
        ensures
            final(self).wf(),
            final(self).state() == feed_spec(old(self).state(), C as nat, b),
            final(self).scrolled <= old(self).scrolled + 1,
            b == 13 ==> final(self).cells@ == old(self).cells@ && final(self).cx == 0 && final(self).cy == old(self).cy
                && final(self).scrolled == old(self).scrolled,
            b == 8 ==> final(self).cells@ == old(self).cells@ && final(self).cx == (if old(self).cx > 0 { old(self).cx - 1 } else { 0 })
                && final(self).cy == old(self).cy && final(self).scrolled == old(self).scrolled,
            b == 10 && old(self).cy + 1 < R ==> final(self).cells@ == old(self).cells@ && final(self).cx == 0 && final(self).cy
                == old(self).cy + 1 && final(self).scrolled == old(self).scrolled,
            b == 10 && old(self).cy + 1 == R ==> final(self).cx == 0 && final(self).cy == old(self).cy && final(self).scrolled
                == old(self).scrolled + 1 && (forall|i: int| 0 <= i < R - 1 ==> #[trigger] final(self).cells@[i]@ == old(self).cells@[i + 1]@)
                && final(self).cells@[R - 1]@ == blank_row(C as nat),
            0x20 <= b <= 0x7e ==> final(self).cells@[old(self).cy as int]@[old(self).cx as int] == b || (old(self).cy + 1 == R
                && old(self).cx + 1 == C),
            0x20 <= b <= 0x7e && old(self).cx + 1 < C ==> final(self).cx == old(self).cx + 1 && final(self).cy == old(self).cy
                && final(self).cells@[old(self).cy as int]@ == old(self).cells@[old(self).cy as int]@.update(old(self).cx as int, b)
                && (forall|i: int| 0 <= i < R && i != old(self).cy ==> #[trigger] final(self).cells@[i] == old(self).cells@[i]),
            0x20 <= b <= 0x7e && old(self).cx + 1 == C && old(self).cy + 1 < R ==> final(self).cx == 0 && final(self).cy == old(self).cy
                + 1 && final(self).scrolled == old(self).scrolled && final(self).cells@[old(self).cy as int]@ == old(self).cells@[old(
                self).cy as int]@.update(old(self).cx as int, b) && (forall|i: int| 0 <= i < R && i != old(self).cy ==> #[trigger] final(
                self).cells@[i] == old(self).cells@[i]),
            0x20 <= b <= 0x7e && old(self).cx + 1 == C && old(self).cy + 1 == R ==> final(self).cx == 0 && final(self).cy == old(self).cy
                && final(self).scrolled == old(self).scrolled + 1 && (R >= 2 ==> final(self).cells@[R - 2]@ == old(self).cells@[R
                - 1]@.update(old(self).cx as int, b)) && (forall|i: int| 0 <= i < R - 2 ==> #[trigger] final(self).cells@[i]@ == old(
                self).cells@[i + 1]@) && final(self).cells@[R - 1]@ == blank_row(C as nat),
            !(b == 13 || b == 10 || b == 8 || (0x20 <= b <= 0x7e)) ==> final(self).cells@ == old(self).cells@ && final(self).cx
                == old(self).cx && final(self).cy == old(self).cy && final(self).scrolled == old(self).scrolled,
    {
        if b == 13u8 {
            self.cx = 0;
        } else if b == 10u8 {
            self.cx = 0;
            self.newline();
        } else if b == 8u8 {
            self.cx = if self.cx > 0 { self.cx - 1 } else { 0 };
        } else if 0x20 <= b && b <= 0x7e {
            let ghost rows0 = self.state().0;
            let mut row = self.cells[self.cy];
            row[self.cx] = b;
            self.cells[self.cy] = row;
            assert(self.state().0 =~= rows0.update(self.cy as int, rows0[self.cy as int].update(self.cx as int, b)));
            self.cx = self.cx + 1;
            if self.cx == C {
                self.cx = 0;
                self.newline();
            }
        }
    }

    /// Feeds all the bytes, in order.
    pub fn feed_all(&mut self, bytes: &[u8])
        requires
            old(self).wf(),
            old(self).scrolled + bytes@.len() <= usize::MAX,
        ensures
            final(self).wf(),
            final(self).state() == feed_all_spec(old(self).state(), C as nat, bytes@),
    {
        let mut i: usize = 0;
        while i < bytes.len()
            invariant
                self.wf(),
                i <= bytes@.len(),
                self.scrolled <= old(self).scrolled + i,
                old(self).scrolled + bytes@.len() <= usize::MAX,
                self.state() == feed_all_spec(old(self).state(), C as nat, bytes@.subrange(0, i as int)),
            decreases bytes.len() - i,
        {
            self.feed(bytes[i]);
            assert(bytes@.subrange(0, i + 1).drop_last() =~= bytes@.subrange(0, i as int));
            i += 1;
        }
        assert(bytes@.subrange(0, bytes@.len() as int) =~= bytes@);
    }
}

impl<const C: usize, const R: usize> Default for Grid<C, R> {
    fn default() -> (g: Self)
        ensures
            g.state() == (Seq::new(R as nat, |i: int| blank_row(C as nat)), 0int, 0int, 0int),
    {
        Self::new()
    }
}

} // verus!
