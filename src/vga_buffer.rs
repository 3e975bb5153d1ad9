//! The text console: 25 rows of 80 cells, each an ASCII byte and a colour
//! code. The writer keeps the cells; whoever owns the screen copies them out.
use vstd::prelude::*;
use vstd::string::StringSliceAdditionalSpecFns;

verus! {

pub const BUFFER_HEIGHT: usize = 25;

pub const BUFFER_WIDTH: usize = 80;

/// Number of cells of the screen.
pub const BUFFER_CELLS: usize = 2000;

#[derive(PartialEq, Eq, Structural, Clone, Copy, Debug)]
pub enum Color {
    Black,
    Blue,
    Green,
    Cyan,
    Red,
    Magenta,
    Brown,
    LightGray,
    DarkGray,
    LightBlue,
    LightGreen,
    LightCyan,
    LightRed,
    Pink,
    Yellow,
    White,
}

/// The 4-bit value of a colour.
pub open spec fn color_value(c: Color) -> u8 {
    match c {
        Color::Black => 0,
        Color::Blue => 1,
        Color::Green => 2,
        Color::Cyan => 3,
        Color::Red => 4,
        Color::Magenta => 5,
        Color::Brown => 6,
        Color::LightGray => 7,
        Color::DarkGray => 8,
        Color::LightBlue => 9,
        Color::LightGreen => 10,
        Color::LightCyan => 11,
        Color::LightRed => 12,
        Color::Pink => 13,
        Color::Yellow => 14,
        Color::White => 15,
    }
}

impl Color {
    pub fn value(self) -> (r: u8)
        ensures
            r == color_value(self),
    {
        match self {
            Color::Black => 0,
            Color::Blue => 1,
            Color::Green => 2,
            Color::Cyan => 3,
            Color::Red => 4,
            Color::Magenta => 5,
            Color::Brown => 6,
            Color::LightGray => 7,
            Color::DarkGray => 8,
            Color::LightBlue => 9,
            Color::LightGreen => 10,
            Color::LightCyan => 11,
            Color::LightRed => 12,
            Color::Pink => 13,
            Color::Yellow => 14,
            Color::White => 15,
        }
    }
}

/// Background in the high four bits, foreground in the low four.
#[derive(PartialEq, Eq, Structural, Clone, Copy, Debug)]
pub struct ColorCode(pub u8);

impl ColorCode {
    pub fn new(foreground: Color, background: Color) -> (r: ColorCode)
        ensures
            r.0 == color_value(background) * 16 + color_value(foreground),
    {
        ColorCode(background.value() * 16 + foreground.value())
    }
}

/// One cell of the screen.
#[derive(PartialEq, Eq, Structural, Clone, Copy, Debug)]
pub struct ScreenChar {
    pub ascii_character: u8,
    pub color_code: ColorCode,
}

pub open spec fn blank(color: ColorCode) -> ScreenChar {
    ScreenChar { ascii_character: 32, color_code: color }
}

/// The screen moved up one row, with a blank last row.
pub open spec fn scrolled(cells: Seq<ScreenChar>, color: ColorCode) -> Seq<ScreenChar> {
    Seq::new(
        BUFFER_CELLS as nat,
        |i: int|
            if i < BUFFER_CELLS - BUFFER_WIDTH {
                cells[i + BUFFER_WIDTH]
            } else {
                blank(color)
            },
    )
}

/// The screen and cursor row after a line feed: the cursor moves down a row,
/// and from the last row the screen scrolls instead.
pub open spec fn line_feed(cells: Seq<ScreenChar>, row: nat, color: ColorCode) -> (Seq<ScreenChar>, nat) {
    if row >= BUFFER_HEIGHT - 1 {
        (scrolled(cells, color), (BUFFER_HEIGHT - 1) as nat)
    } else {
        (cells, row + 1)
    }
}

/// The screen and cursor (row, column) after writing `byte`: a line feed
/// moves to the start of the next row; any other byte goes to the cursor,
/// after a line feed when the row is full, and advances the column.
pub open spec fn after_byte(cells: Seq<ScreenChar>, row: nat, col: nat, color: ColorCode, byte: u8) -> (
    Seq<ScreenChar>,
    nat,
    nat,
) {
    if byte == 10 {
        let (c, r) = line_feed(cells, row, color);
        (c, r, 0)
    } else {
        let (c, r, k) = if col >= BUFFER_WIDTH {
            let (c2, r2) = line_feed(cells, row, color);
            (c2, r2, 0nat)
        } else {
            (cells, row, col)
        };
        (c.update(r * BUFFER_WIDTH + k, ScreenChar { ascii_character: byte, color_code: color }), r, k + 1)
    }
}

/// The screen and cursor after writing `bytes` in order.
pub open spec fn after_bytes(cells: Seq<ScreenChar>, row: nat, col: nat, color: ColorCode, bytes: Seq<u8>) -> (
    Seq<ScreenChar>,
    nat,
    nat,
)
    decreases bytes.len(),
{
    if bytes.len() == 0 {
        (cells, row, col)
    } else {
        let (c, r, k) = after_bytes(cells, row, col, color, bytes.drop_last());
        after_byte(c, r, k, color, bytes.last())
    }
}

pub struct Writer {
    row_position: usize,
    column_position: usize,
    color_code: ColorCode,
    buffer: Vec<ScreenChar>,
}

impl Writer {
    pub closed spec fn cells(&self) -> Seq<ScreenChar> {
        self.buffer@
    }

    pub closed spec fn row(&self) -> nat {
        self.row_position as nat
    }

    pub closed spec fn column(&self) -> nat {
        self.column_position as nat
    }

    pub closed spec fn color(&self) -> ColorCode {
        self.color_code
    }

    pub open spec fn wf(&self) -> bool {
        self.cells().len() == BUFFER_CELLS && self.row() < BUFFER_HEIGHT && self.column() <= BUFFER_WIDTH
    }

    /// A blank screen with the cursor at the top left.
    pub fn new(color_code: ColorCode) -> (r: Writer)
        ensures
            r.wf(),
            r.row() == 0,
            r.column() == 0,
            r.color() == color_code,
            r.cells() == Seq::new(BUFFER_CELLS as nat, |i: int| blank(color_code)),
    {
        let mut buffer: Vec<ScreenChar> = Vec::new();
        while buffer.len() < BUFFER_CELLS
            invariant
                buffer.len() <= BUFFER_CELLS,
                forall|i: int| 0 <= i < buffer.len() ==> buffer@[i] == blank(color_code),
            decreases BUFFER_CELLS - buffer.len(),
        {
            buffer.push(ScreenChar { ascii_character: 32, color_code });
        }
        let r = Writer { row_position: 0, column_position: 0, color_code, buffer };
        assert(r.cells() =~= Seq::new(BUFFER_CELLS as nat, |i: int| blank(color_code)));
        r
    }

    /// The cell at `row`, `col`.
    pub fn char_at(&self, row: usize, col: usize) -> (r: ScreenChar)
        requires
            self.wf(),
            row < BUFFER_HEIGHT,
            col < BUFFER_WIDTH,
        ensures
            r == self.cells()[row * BUFFER_WIDTH + col],
    {
        self.buffer[row * BUFFER_WIDTH + col]
    }

    /// The cursor row.
    pub fn row_position(&self) -> (r: usize)
        ensures
            r == self.row(),
    {
        self.row_position
    }

    /// The cursor column.
    pub fn column_position(&self) -> (r: usize)
        ensures
            r == self.column(),
    {
        self.column_position
    }

    /// Writes one byte at the cursor.
    pub fn write_byte(&mut self, byte: u8)
        requires
            old(self).wf(),
        ensures
            final(self).wf(),
            final(self).color() == old(self).color(),
            (final(self).cells(), final(self).row(), final(self).column()) == after_byte(
                old(self).cells(),
                old(self).row(),
                old(self).column(),
                old(self).color(),
                byte,
            ),
    {
        if byte == 10 {
            self.new_line();
        } else {
            if self.column_position >= BUFFER_WIDTH {
                self.new_line();
            }
            let row = self.row_position;
            let col = self.column_position;
            let color_code = self.color_code;
            self.buffer.set(row * BUFFER_WIDTH + col, ScreenChar { ascii_character: byte, color_code });
            self.column_position = self.column_position + 1;
        }
    }

    /// Moves the cursor to the start of the next row; on the last row, moves
    /// every row up one and blanks the last row instead.
    pub fn new_line(&mut self)
        requires
            old(self).wf(),
        ensures
            final(self).wf(),
            final(self).color() == old(self).color(),
            (final(self).cells(), final(self).row()) == line_feed(old(self).cells(), old(self).row(), old(self).color()),
            final(self).column() == 0,
    {
        if self.row_position == BUFFER_HEIGHT - 1 {
            let ghost old_cells = self.buffer@;
            let mut i: usize = 0;
            while i < BUFFER_CELLS - BUFFER_WIDTH
                invariant
                    self.buffer@.len() == BUFFER_CELLS,
                    self.color_code == old(self).color_code,
                    self.column_position == old(self).column_position,
                    self.row_position == old(self).row_position,
                    self.column_position <= BUFFER_WIDTH,
                    self.row_position == BUFFER_HEIGHT - 1,
                    old_cells == old(self).buffer@,
                    i <= BUFFER_CELLS - BUFFER_WIDTH,
                    forall|j: int| 0 <= j < i ==> self.buffer@[j] == old_cells[j + BUFFER_WIDTH],
                    forall|j: int| i <= j < BUFFER_CELLS ==> self.buffer@[j] == old_cells[j],
                decreases BUFFER_CELLS - BUFFER_WIDTH - i,
            {
                let c = self.buffer[i + BUFFER_WIDTH];
                self.buffer.set(i, c);
                i = i + 1;
            }
            self.clear_row(BUFFER_HEIGHT - 1);
            assert(self.buffer@ =~= scrolled(old_cells, self.color_code));
        } else {
            self.row_position = self.row_position + 1;
        }
        self.column_position = 0;
    }

    /// Blanks row `row`.
    pub fn clear_row(&mut self, row: usize)
        requires
            old(self).wf(),
            row < BUFFER_HEIGHT,
        ensures
            final(self).wf(),
            final(self).color() == old(self).color(),
            final(self).row() == old(self).row(),
            final(self).column() == old(self).column(),
            forall|j: int|
                0 <= j < BUFFER_CELLS ==> final(self).cells()[j] == if row * BUFFER_WIDTH <= j < (row + 1)
                    * BUFFER_WIDTH {
                    blank(old(self).color())
                } else {
                    old(self).cells()[j]
                },
    {
        let blank_char = ScreenChar { ascii_character: 32, color_code: self.color_code };
        let mut col: usize = 0;
        while col < BUFFER_WIDTH
            invariant
                self.wf(),
                self.color_code == old(self).color_code,
                self.column_position == old(self).column_position,
                self.row_position == old(self).row_position,
                row < BUFFER_HEIGHT,
                col <= BUFFER_WIDTH,
                blank_char == blank(self.color_code),
                forall|j: int|
                    0 <= j < BUFFER_CELLS ==> self.cells()[j] == if row * BUFFER_WIDTH <= j < row
                        * BUFFER_WIDTH + col {
                        blank(old(self).color())
                    } else {
                        old(self).cells()[j]
                    },
            decreases BUFFER_WIDTH - col,
        {
            self.buffer.set(row * BUFFER_WIDTH + col, blank_char);
            col = col + 1;
        }
    }

    /// Writes the bytes of `s` in order.
    pub fn write_str(&mut self, s: &str)
        requires
            old(self).wf(),
        ensures
            final(self).wf(),
            final(self).color() == old(self).color(),
            (final(self).cells(), final(self).row(), final(self).column()) == after_bytes(
                old(self).cells(),
                old(self).row(),
                old(self).column(),
                old(self).color(),
                s.spec_bytes(),
            ),
    {
        let bytes = s.as_bytes();
        let mut i: usize = 0;
        assert(bytes@.take(0) =~= Seq::<u8>::empty());
        while i < bytes.len()
            invariant
                self.wf(),
                self.color() == old(self).color(),
                i <= bytes@.len(),
                bytes@ == s.spec_bytes(),
                (self.cells(), self.row(), self.column()) == after_bytes(
                    old(self).cells(),
                    old(self).row(),
                    old(self).column(),
                    old(self).color(),
                    bytes@.take(i as int),
                ),
            decreases bytes.len() - i,
        {
            proof {
                assert(bytes@.take(i + 1).drop_last() =~= bytes@.take(i as int));
            }
            self.write_byte(bytes[i]);
            i = i + 1;
        }
        assert(bytes@.take(i as int) =~= bytes@);
    }

    /// Blanks the whole screen and puts the cursor at the top left.
    pub fn clear_screen(&mut self)
        requires
            old(self).wf(),
        ensures
            final(self).wf(),
            final(self).color() == old(self).color(),
            final(self).row() == 0,
            final(self).column() == 0,
            forall|j: int| 0 <= j < BUFFER_CELLS ==> final(self).cells()[j] == blank(old(self).color()),
    {
        let mut row: usize = 0;
        while row < BUFFER_HEIGHT
            invariant
                self.wf(),
                self.color_code == old(self).color_code,
                row <= BUFFER_HEIGHT,
                forall|j: int| 0 <= j < row * BUFFER_WIDTH ==> self.cells()[j] == blank(old(self).color()),
            decreases BUFFER_HEIGHT - row,
        {
            self.clear_row(row);
            row = row + 1;
        }
        self.row_position = 0;
        self.column_position = 0;
    }
}

} // verus!
