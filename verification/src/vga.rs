//! The text that a VGA text-mode screen shows: 25 rows of 80 characters and
//! a cursor. Writing past the last row scrolls the screen up by one row. The
//! bytes live here; whoever owns the video memory copies `char_at(i)` into
//! the character byte of cell `i`.

use vstd::prelude::*;

verus! {

pub const ROWS: usize = 25;

pub const COLS: usize = 80;

/// The number of cells on the screen.
pub const CELLS: usize = 2000;

/// A screen whose every cell holds zero.
pub open spec fn blank_screen() -> Seq<u8> {
    Seq::new(2000, |i: int| 0u8)
}

/// The screen `cells` moved up by `lines` rows (`0 < lines < ROWS`), with
/// blank rows coming in at the bottom.
pub open spec fn scrolled(cells: Seq<u8>, lines: int) -> Seq<u8> {
    Seq::new(2000, |i: int| if i < (25 - lines) * 80 { cells[i + lines * 80] } else { 0u8 })
}

/// Screen and cursor after scrolling up by `lines` rows: nothing changes for
/// zero, a whole screen or more blanks it and homes the cursor, and anything
/// between moves the rows up and the cursor back by as many cells, stopping
/// at the first cell.
pub open spec fn scroll_state(cells: Seq<u8>, offset: int, lines: int) -> (Seq<u8>, int) {
    if lines == 0 {
        (cells, offset)
    } else if lines >= 25 {
        (blank_screen(), 0)
    } else {
        (scrolled(cells, lines), if offset >= lines * 80 { offset - lines * 80 } else { 0 })
    }
}

/// The byte shown for `c`: itself if it is ASCII, else `?`.
pub open spec fn shown_byte(c: char) -> u8 {
    if (c as u32) < 128 {
        c as u8
    } else {
        63u8
    }
}

/// Screen and cursor after writing one character: a cursor past the last
/// cell first scrolls the screen up a row; a newline then moves the cursor to
/// the start of the next row, and any other character is stored at the
/// cursor, which moves on by one.
pub open spec fn put_char(state: (Seq<u8>, int), c: char) -> (Seq<u8>, int) {
    let (cells, offset) = if state.1 >= 2000 {
        scroll_state(state.0, state.1, 1)
    } else {
        state
    };
    if c == '\n' {
        (cells, ((offset + 80) / 80) * 80)
    } else {
        (cells.update(offset, shown_byte(c)), offset + 1)
    }
}

/// Screen and cursor after writing `chars` in order from `state`.
pub open spec fn written(state: (Seq<u8>, int), chars: Seq<char>) -> (Seq<u8>, int)
    decreases chars.len(),
{
    if chars.len() == 0 {
        state
    } else {
        put_char(written(state, chars.drop_last()), chars.last())
    }
}

/// The characters on a VGA text screen and the cursor: the index of the cell
/// the next character goes to.
pub struct VgaWriter {
    cells: Vec<u8>,
    offset: usize,
}

impl View for VgaWriter {
    type V = (Seq<u8>, int);

    closed spec fn view(&self) -> (Seq<u8>, int) {
        (self.cells@, self.offset as int)
    }
}

impl VgaWriter {
    /// The screen holds `CELLS` cells and the cursor lies on it or just past
    /// its last cell.
    pub closed spec fn wf(&self) -> bool {
        &&& self.cells@.len() == 2000
        &&& self.offset <= 2000
    }

    /// A blank screen with the cursor on the first cell.
    pub fn new() -> (r: VgaWriter)
        ensures
            r.wf(),
            r@ == (blank_screen(), 0int),
    {
        let mut w = VgaWriter { cells: Vec::new(), offset: 0 };
        w.clear();
        w
    }

    /// Blank the screen and move the cursor to the first cell.
    pub fn clear(&mut self)
        ensures
            final(self).wf(),
            final(self)@ == (blank_screen(), 0int),
    {
        let mut cells: Vec<u8> = Vec::new();
        let mut i: usize = 0;
        while i < CELLS
            invariant
                i <= 2000,
                cells@ == Seq::new(i as nat, |k: int| 0u8),
            decreases 2000 - i,
        {
            cells.push(0);
            i = i + 1;
        }
        assert(cells@ =~= blank_screen());
        self.cells = cells;
        self.offset = 0;
    }

    /// The character byte of cell `i`.
    pub fn char_at(&self, i: usize) -> (r: u8)
        requires
            self.wf(),
            i < CELLS,
        ensures
            r == self@.0[i as int],
    {
        self.cells[i]
    }

    /// The cell the next character goes to.
    pub fn offset(&self) -> (r: usize)
        ensures
            r == self@.1,
    {
        self.offset
    }

    fn scroll(&mut self, lines: usize)
        requires
            old(self).wf(),
        ensures
            final(self).wf(),
            final(self)@ == scroll_state(old(self)@.0, old(self)@.1, lines as int),
    {
        if lines == 0 {
            return;
        }
        if lines >= ROWS {
            self.clear();
            return;
        }
        let shift = lines * COLS;
        let keep = (ROWS - lines) * COLS;
        let mut cells: Vec<u8> = Vec::new();
        let mut i: usize = 0;
        while i < CELLS
            invariant
                0 < lines < 25,
                shift == lines * 80,
                keep == (25 - lines) * 80,
                keep + shift == 2000,
                i <= 2000,
                self.cells@.len() == 2000,
                cells@.len() == i,
                forall|k: int| 0 <= k < i ==> #[trigger] cells@[k] == scrolled(self.cells@, lines as int)[k],
            decreases 2000 - i,
        {
            if i < keep {
                cells.push(self.cells[i + shift]);
            } else {
                cells.push(0);
            }
            i = i + 1;
        }
        assert(cells@ =~= scrolled(self.cells@, lines as int));
        self.cells = cells;
        self.offset = if self.offset >= shift {
            self.offset - shift
        } else {
            0
        };
    }

    /// Write `c` as `put_char` says.
    fn put(&mut self, c: char)
        requires
            old(self).wf(),
        ensures
            final(self).wf(),
            final(self)@ == put_char(old(self)@, c),
    {
        if self.offset >= CELLS {
            self.scroll(1);
        }
        if c == '\n' {
            assert(((self.offset + 80) / 80) * 80 <= 2000) by (nonlinear_arith)
                requires
                    self.offset < 2000,
            ;
            self.offset = ((self.offset + COLS) / COLS) * COLS;
        } else {
            let code = c as u32;
            let b: u8 = if code < 128 {
                code as u8
            } else {
                63
            };
            let o = self.offset;
            self.cells.set(o, b);
            self.offset = o + 1;
        }
    }

    /// Write the characters of `s` in order, each as `put_char` says.
    pub fn write_str(&mut self, s: &str)
        requires
            old(self).wf(),
        ensures
            final(self).wf(),
            final(self)@ == written(old(self)@, s@),
    {
        let ghost start = self@;
        for c in it: s.chars()
            invariant
                self.wf(),
                it.seq() == s@,
                self@ == written(start, s@.take(it.index())),
        {
            proof {
                assert(s@.take(it.index() + 1).drop_last() =~= s@.take(it.index()));
            }
            self.put(c);
        }
        assert(s@.take(s@.len() as int) =~= s@);
    }
}

} // verus!
