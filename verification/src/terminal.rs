//! A scroll-back buffer of text lines and a way to show it on a character
//! terminal.

use vstd::prelude::*;
use vstd::string::StringSliceAdditionalSpecFns;

verus! {

/// A position on a terminal: column `x`, row `y`.
pub struct Vector {
    pub x: usize,
    pub y: usize,
}

/// A character terminal: a grid of cells, each holding one byte.
pub trait Terminal: Sized {
    /// The terminal's width and height, in cells.
    spec fn dims(&self) -> (int, int);

    /// The byte a blank cell holds.
    spec fn blank(&self) -> u8;

    /// The byte in the cell at column `x`, row `y`.
    spec fn cell(&self, x: int, y: int) -> u8;

    fn size(&self) -> (r: Vector)
        ensures
            r.x == self.dims().0,
            r.y == self.dims().1,
    ;

    fn blank_elem(&self) -> (r: u8)
        ensures
            r == self.blank(),
    ;

    /// Write `c` into the cell at `pos`, which lies on the terminal; no other
    /// cell changes.
    fn write_at(&mut self, c: u8, pos: Vector)
        requires
            pos.x < old(self).dims().0,
            pos.y < old(self).dims().1,
        ensures
            final(self).dims() == old(self).dims(),
            final(self).blank() == old(self).blank(),
            final(self).cell(pos.x as int, pos.y as int) == c,
            forall|x: int, y: int|
                !(x == pos.x && y == pos.y) ==> #[trigger] final(self).cell(x, y) == old(self).cell(x, y),
    ;

    /// Blank every cell of the terminal.
    fn clear(&mut self)
        ensures
            final(self).dims() == old(self).dims(),
            final(self).blank() == old(self).blank(),
            forall|x: int, y: int|
                0 <= x < final(self).dims().0 && 0 <= y < final(self).dims().1 ==> #[trigger] final(self).cell(x, y) == final(self).blank(),
            forall|x: int, y: int|
                !(0 <= x < final(self).dims().0 && 0 <= y < final(self).dims().1) ==> #[trigger] final(self).cell(x, y) == old(self).cell(x, y),
    {
        let sz = self.size();
        let ghost start = *self;
        let mut y: usize = 0;
        while y < sz.y
            invariant
                self.dims() == start.dims(),
                self.blank() == start.blank(),
                sz.x == start.dims().0,
                sz.y == start.dims().1,
                y <= sz.y,
                forall|cx: int, cy: int|
                    0 <= cx < sz.x && 0 <= cy < y ==> #[trigger] self.cell(cx, cy) == start.blank(),
                forall|cx: int, cy: int|
                    !(0 <= cx < sz.x && 0 <= cy < y) ==> #[trigger] self.cell(cx, cy) == start.cell(
                        cx,
                        cy,
                    ),
            decreases sz.y - y,
        {
            let mut x: usize = 0;
            while x < sz.x
                invariant
                    self.dims() == start.dims(),
                    self.blank() == start.blank(),
                    sz.x == start.dims().0,
                    sz.y == start.dims().1,
                    y < sz.y,
                    x <= sz.x,
                    forall|cx: int, cy: int|
                        (0 <= cx < sz.x && 0 <= cy < y) || (0 <= cx < x && cy == y) ==> #[trigger] self.cell(
                            cx,
                            cy,
                        ) == start.blank(),
                    forall|cx: int, cy: int|
                        !((0 <= cx < sz.x && 0 <= cy < y) || (0 <= cx < x && cy == y)) ==> #[trigger] self.cell(
                            cx,
                            cy,
                        ) == start.cell(cx, cy),
                decreases sz.x - x,
            {
                let blank_elem = self.blank_elem();
                self.write_at(blank_elem, Vector { x: x, y: y });
                x = x + 1;
            }
            y = y + 1;
        }
    }
}

/// A character terminal kept in memory: `W` columns by `H` rows of bytes,
/// with the byte `blank` for an empty cell. A real screen shows it by
/// copying its rows out.
pub struct TextScreen<const W: usize, const H: usize> {
    rows: [[u8; W]; H],
    blank: u8,
}

impl<const W: usize, const H: usize> TextScreen<W, H> {
    /// A screen whose every cell is `blank`.
    pub fn new(blank: u8) -> (r: Self)
        ensures
            r.dims() == (W as int, H as int),
            r.blank() == blank,
            forall|x: int, y: int| 0 <= x < W && 0 <= y < H ==> #[trigger] r.cell(x, y) == blank,
    {
        TextScreen { rows: [[blank; W]; H], blank }
    }

    /// Row `y`, which must lie on the screen.
    pub fn row(&self, y: usize) -> (r: [u8; W])
        requires
            y < H,
        ensures
            forall|x: int| 0 <= x < W ==> #[trigger] r@[x] == self.cell(x, y as int),
    {
        self.rows[y]
    }
}

impl<const W: usize, const H: usize> Terminal for TextScreen<W, H> {
    open spec fn dims(&self) -> (int, int) {
        (W as int, H as int)
    }

    closed spec fn blank(&self) -> u8 {
        self.blank
    }

    /// Cells off the screen read as zero.
    closed spec fn cell(&self, x: int, y: int) -> u8 {
        if 0 <= x < W && 0 <= y < H {
            self.rows@[y]@[x]
        } else {
            0
        }
    }

    fn size(&self) -> (r: Vector) {
        Vector { x: W, y: H }
    }

    fn blank_elem(&self) -> (r: u8) {
        self.blank
    }

    fn write_at(&mut self, c: u8, pos: Vector) {
        let mut row = self.rows[pos.y];
        row[pos.x] = c;
        self.rows[pos.y] = row;
    }
}

/// The width of a buffer line, in bytes.
pub const WIDTH: usize = 80;

/// The number of lines a buffer holds.
pub const HEIGHT: usize = 1024;

/// One line of text.
#[derive(Clone, Copy)]
pub struct BufferLine(pub [u8; WIDTH]);

/// A ring of `HEIGHT` lines; `bottom_line` is the next line to be written.
#[derive(Clone, Copy)]
pub struct Buffer {
    pub bottom_line: usize,
    pub data: [BufferLine; HEIGHT],
}

/// The line that `write_line` stores for text with the bytes `bytes`: its
/// first `WIDTH` bytes, padded with zeros.
pub open spec fn line_for(bytes: Seq<u8>) -> Seq<u8> {
    Seq::new(80, |i: int| if i < bytes.len() { bytes[i] } else { 0u8 })
}

impl Buffer {
    /// An empty buffer, every byte zero, with line 25 next to be written.
    pub fn new() -> (r: Buffer)
        ensures
            r.bottom_line == 25,
            forall|y: int, x: int| 0 <= y < 1024 && 0 <= x < 80 ==> (#[trigger] r.data@[y].0@[x]) == 0,
    {
        Buffer { bottom_line: 25, data: [BufferLine([0; WIDTH]); HEIGHT] }
    }

    /// Store `s` in the line `bottom_line`, cut to `WIDTH` bytes and padded
    /// with zeros, and move on to the next line, wrapping around after the
    /// last.
    pub fn write_line(&mut self, s: &str)
        requires
            old(self).bottom_line < HEIGHT,
        ensures
            final(self).bottom_line == (old(self).bottom_line + 1) % 1024,
            final(self).data@.len() == 1024,
            final(self).data@[old(self).bottom_line as int].0@ == line_for(s.spec_bytes()),
            forall|y: int|
                0 <= y < 1024 && y != old(self).bottom_line ==> #[trigger] final(self).data@[y]
                    == old(self).data@[y],
    {
        let bytes = s.as_bytes();
        let mut line = [0u8; WIDTH];
        let mut i: usize = 0;
        while i < WIDTH
            invariant
                i <= 80,
                bytes@ == s.spec_bytes(),
                line@.len() == 80,
                forall|k: int| 0 <= k < i ==> #[trigger] line@[k] == line_for(bytes@)[k],
            decreases 80 - i,
        {
            if i < bytes.len() {
                line[i] = bytes[i];
            } else {
                line[i] = 0;
            }
            i = i + 1;
        }
        assert(line@ =~= line_for(bytes@));
        let b = self.bottom_line;
        self.data[b] = BufferLine(line);
        self.bottom_line = (self.bottom_line + 1) % HEIGHT;
    }
}

/// The buffer line shown in a terminal's top row: the line `height` above
/// `bottom`, wrapping around the ring.
pub open spec fn shown_top_line(bottom: int, height: int) -> int {
    if bottom >= height {
        bottom - height
    } else {
        1024 - height + bottom
    }
}

/// Show the last lines of `buffer` on `term`: the terminal is cleared, then
/// row `y` gets the buffer line `y` below `shown_top_line`, cut to the terminal's
/// width. The terminal must be at most `WIDTH` wide and `HEIGHT` high.
pub fn display_buffer<T: Terminal>(term: &mut T, buffer: &Buffer)
    requires
        old(term).dims().0 <= WIDTH,
        old(term).dims().1 <= HEIGHT,
        buffer.bottom_line <= usize::MAX - HEIGHT,
    ensures
        final(term).dims() == old(term).dims(),
        forall|x: int, y: int|
            0 <= x < final(term).dims().0 && 0 <= y < final(term).dims().1 ==> #[trigger] final(term).cell(x, y) == buffer.data@[(y + shown_top_line(buffer.bottom_line as int, old(term).dims().1))
                % 1024].0@[x],
        forall|x: int, y: int|
            !(0 <= x < final(term).dims().0 && 0 <= y < final(term).dims().1) ==> #[trigger] final(term).cell(x, y) == old(term).cell(x, y),
{
    term.clear();
    let ghost start = *term;
    let ghost old_term = *old(term);
    let height = term.size().y;
    let top_line = if buffer.bottom_line >= height {
        buffer.bottom_line - height
    } else {
        HEIGHT - height + buffer.bottom_line
    };
    let mut y: usize = 0;
    while y < term.size().y
        invariant
            term.dims() == start.dims(),
            start.dims() == old_term.dims(),
            height == start.dims().1,
            start.dims().0 <= 80,
            start.dims().1 <= 1024,
            top_line == shown_top_line(buffer.bottom_line as int, height as int),
            top_line + height <= usize::MAX,
            y <= height,
            forall|cx: int, cy: int|
                0 <= cx < start.dims().0 && 0 <= cy < y ==> #[trigger] term.cell(cx, cy)
                    == buffer.data@[(cy + top_line) % 1024].0@[cx],
            forall|cx: int, cy: int|
                !(0 <= cx < start.dims().0 && 0 <= cy < y) ==> #[trigger] term.cell(cx, cy)
                    == start.cell(cx, cy),
            forall|cx: int, cy: int|
                !(0 <= cx < start.dims().0 && 0 <= cy < start.dims().1) ==> #[trigger] start.cell(
                    cx,
                    cy,
                ) == old_term.cell(cx, cy),
        decreases height - y,
    {
        let term_line = (y + top_line) % HEIGHT;
        let line = &buffer.data[term_line].0;
        let mut x: usize = 0;
        while x < term.size().x
            invariant
                term.dims() == start.dims(),
                start.dims().0 <= 80,
                height == start.dims().1,
                y < height,
                x <= start.dims().0,
                term_line == (y + top_line) % 1024,
                *line == buffer.data@[term_line as int].0,
                forall|cx: int, cy: int|
                    (0 <= cx < start.dims().0 && 0 <= cy < y) || (0 <= cx < x && cy == y) ==> #[trigger] term.cell(
                        cx,
                        cy,
                    ) == buffer.data@[(cy + top_line) % 1024].0@[cx],
                forall|cx: int, cy: int|
                    !((0 <= cx < start.dims().0 && 0 <= cy < y) || (0 <= cx < x && cy == y)) ==> #[trigger] term.cell(
                        cx,
                        cy,
                    ) == start.cell(cx, cy),
            decreases start.dims().0 - x,
        {
            term.write_at(line[x], Vector { x: x, y: y });
            x = x + 1;
        }
        y = y + 1;
    }
}

} // verus!
