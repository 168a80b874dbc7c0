//! The text display: 25 rows of 80 character cells that scroll upwards.

use vstd::prelude::*;
use vstd::string::{StrSliceExecFns, StringSliceAdditionalSpecFns};

verus! {

/// A colour of the text display.
#[derive(Debug, Clone, Copy, PartialEq, Eq, Structural)]
pub enum Color {
    Black,
    Blue,
    Green,
    Cyan,
    Red,
    Magenta,
    Brown,
    LightGray,
    DarkGray,
    LightBlue,
    LightGreen,
    LightCyan,
    LightRed,
    Pink,
    Yellow,
    White,
}

impl Color {
    /// The number that the display knows the colour by.
    pub open spec fn spec_code(self) -> u8 {
        match self {
            Color::Black => 0,
            Color::Blue => 1,
            Color::Green => 2,
            Color::Cyan => 3,
            Color::Red => 4,
            Color::Magenta => 5,
            Color::Brown => 6,
            Color::LightGray => 7,
            Color::DarkGray => 8,
            Color::LightBlue => 9,
            Color::LightGreen => 10,
            Color::LightCyan => 11,
            Color::LightRed => 12,
            Color::Pink => 13,
            Color::Yellow => 14,
            Color::White => 15,
        }
    }

    /// The number that the display knows the colour by.
    #[verifier::when_used_as_spec(spec_code)]
    pub fn code(self) -> (code: u8)
        ensures
            code == self.spec_code(),
            code < 16,
    {
        match self {
            Color::Black => 0,
            Color::Blue => 1,
            Color::Green => 2,
            Color::Cyan => 3,
            Color::Red => 4,
            Color::Magenta => 5,
            Color::Brown => 6,
            Color::LightGray => 7,
            Color::DarkGray => 8,
            Color::LightBlue => 9,
            Color::LightGreen => 10,
            Color::LightCyan => 11,
            Color::LightRed => 12,
            Color::Pink => 13,
            Color::Yellow => 14,
            Color::White => 15,
        }
    }
}

/// A foreground and a background colour in one byte: the background in
/// the high four bits, the foreground in the low four.
#[derive(Debug, Clone, Copy, PartialEq, Eq, Structural)]
pub struct ColorCode(pub u8);

impl ColorCode {
    /// The byte for the two colours.
    pub fn new(foreground: Color, background: Color) -> (code: ColorCode)
        ensures
            code.0 == background.code() * 16 + foreground.code(),
    {
        let high = background.code();
        let low = foreground.code();
        assert((high << 4 | low) == high * 16 + low) by (bit_vector)
            requires
                high < 16,
                low < 16,
        ;
        ColorCode(high << 4 | low)
    }
}

/// A character cell: a character of the display's character set and its
/// colours.
#[derive(Debug, Clone, Copy, PartialEq, Eq, Structural)]
pub struct ScreenChar {
    pub ascii_character: u8,
    pub color_code: ColorCode,
}

/// The byte that feeds a line.
pub const LINE_FEED: u8 = 10;

/// The byte of a blank cell.
pub const BLANK: u8 = 0x20;

/// Rows of the display.
pub const BUFFER_HEIGHT: usize = 25;

/// Cells in a row.
pub const BUFFER_WIDTH: usize = 80;

/// The cells of the display, row by row from the top.
#[derive(Debug)]
pub struct Buffer {
    pub chars: Vec<Vec<ScreenChar>>,
}

/// A row of blanks in the given colours.
pub open spec fn blank_row(color_code: ColorCode) -> Seq<ScreenChar> {
    Seq::new(80, |col: int| ScreenChar { ascii_character: 0x20, color_code })
}

/// What is on the display and where the next character goes.
pub struct Screen {
    /// The cells, row by row from the top.
    pub rows: Seq<Seq<ScreenChar>>,
    /// The column in the bottom row that the next character goes to; 80
    /// when the row is full.
    pub column: nat,
    /// The colours of what is written.
    pub color_code: ColorCode,
}

impl Screen {
    /// The display has 25 rows of 80 cells, and the column is in the row
    /// or just past its end.
    pub open spec fn wf(self) -> bool {
        &&& self.rows.len() == 25
        &&& forall|row: int| 0 <= row < 25 ==> (#[trigger] self.rows[row]).len() == 80
        &&& self.column <= 80
    }

    /// The display with row `row` blank.
    pub open spec fn clear_row(self, row: int) -> Screen {
        Screen { rows: self.rows.update(row, blank_row(self.color_code)), ..self }
    }

    /// The display after a line feed: every row has moved up by one, the
    /// top row is gone, the bottom row is blank, and the next character
    /// goes to its first column.
    pub open spec fn new_line(self) -> Screen {
        Screen {
            rows: Seq::new(
                25,
                |row: int|
                    if row < 24 {
                        self.rows[row + 1]
                    } else {
                        blank_row(self.color_code)
                    },
            ),
            column: 0,
            color_code: self.color_code,
        }
    }

    /// The display after one byte is written: the byte 10 feeds a line,
    /// every other byte goes to the bottom row, after a line feed if the
    /// row is full.
    pub open spec fn write_byte(self, byte: u8) -> Screen {
        if byte == 10 {
            self.new_line()
        } else {
            let start = if self.column >= 80 {
                self.new_line()
            } else {
                self
            };
            Screen {
                rows: start.rows.update(
                    24,
                    start.rows[24].update(
                        start.column as int,
                        ScreenChar { ascii_character: byte, color_code: self.color_code },
                    ),
                ),
                column: start.column + 1,
                color_code: self.color_code,
            }
        }
    }

    /// The display after the bytes are written one after the other.
    pub open spec fn write_bytes(self, bytes: Seq<u8>) -> Screen
        decreases bytes.len(),
    {
        if bytes.len() == 0 {
            self
        } else {
            self.write_byte(bytes[0]).write_bytes(bytes.skip(1))
        }
    }
}

/// The writer of the text display. It writes at the bottom row and
/// scrolls the rest upwards.
#[derive(Debug)]
pub struct Writer {
    column_position: usize,
    color_code: ColorCode,
    buffer: Buffer,
}

impl View for Writer {
    type V = Screen;

    closed spec fn view(&self) -> Screen {
        Screen {
            rows: Seq::new(self.buffer.chars.len() as nat, |row: int| self.buffer.chars[row]@),
            column: self.column_position as nat,
            color_code: self.color_code,
        }
    }
}

impl Writer {
    /// The buffer has the shape that the view has.
    proof fn lemma_shape(&self)
        requires
            self@.wf(),
        ensures
            self.buffer.chars.len() == 25,
            forall|row: int| 0 <= row < 25 ==> (#[trigger] self.buffer.chars[row]).len() == 80,
            forall|row: int|
                0 <= row < 25 ==> #[trigger] self@.rows[row] == self.buffer.chars[row]@,
    {
        assert(self@.rows.len() == self.buffer.chars.len());
        assert forall|row: int| 0 <= row < 25 implies (#[trigger] self.buffer.chars[row]).len()
            == 80 by {
            assert(self@.rows[row] == self.buffer.chars[row]@);
        }
    }

    /// A writer in the given colours on a blank display.
    pub fn new(color_code: ColorCode) -> (writer: Writer)
        ensures
            writer@.wf(),
            writer@.column == 0,
            writer@.color_code == color_code,
            forall|row: int|
                0 <= row < 25 ==> #[trigger] writer@.rows[row] == blank_row(color_code),
    {
        let blank = ScreenChar { ascii_character: BLANK, color_code };
        let mut chars: Vec<Vec<ScreenChar>> = Vec::new();
        let mut row: usize = 0;
        while row < BUFFER_HEIGHT
            invariant
                row <= 25,
                chars.len() == row,
                blank == (ScreenChar { ascii_character: 0x20, color_code }),
                forall|r: int| 0 <= r < row ==> #[trigger] chars[r]@ == blank_row(color_code),
            decreases 25 - row,
        {
            let mut cells: Vec<ScreenChar> = Vec::new();
            let mut col: usize = 0;
            while col < BUFFER_WIDTH
                invariant
                    col <= 80,
                    cells.len() == col,
                    forall|c: int| 0 <= c < col ==> #[trigger] cells[c] == blank,
                decreases 80 - col,
            {
                cells.push(blank);
                col += 1;
            }
            proof {
                assert(cells@ =~= blank_row(color_code));
            }
            chars.push(cells);
            row += 1;
        }
        Writer { column_position: 0, color_code, buffer: Buffer { chars } }
    }

    /// The cell in the given row and column.
    pub fn cell(&self, row: usize, col: usize) -> (cell: ScreenChar)
        requires
            self@.wf(),
            row < 25,
            col < 80,
        ensures
            cell == self@.rows[row as int][col as int],
    {
        proof {
            self.lemma_shape();
        }
        self.buffer.chars[row][col]
    }

    /// The column in the bottom row that the next character goes to.
    pub fn column(&self) -> (col: usize)
        ensures
            col == self@.column,
    {
        self.column_position
    }

    /// Write a byte to the screen
    pub fn write_byte(&mut self, byte: u8)
        requires
            old(self)@.wf(),
        ensures
            final(self)@.wf(),
            final(self)@ == old(self)@.write_byte(byte),
    {
        if byte == LINE_FEED {
            self.new_line()
        } else {
            {
                if self.column_position >= BUFFER_WIDTH {
                    self.new_line();
                }
                let row = BUFFER_HEIGHT - 1;
                let col = self.column_position;
                let color_code = self.color_code;
                let ghost before = self@;
                proof {
                    self.lemma_shape();
                }
                self.buffer.chars[row][col] = ScreenChar { ascii_character: byte, color_code };
                self.column_position += 1;
                proof {
                    assert(self@.rows =~= before.rows.update(
                        24,
                        before.rows[24].update(
                            col as int,
                            ScreenChar { ascii_character: byte, color_code },
                        ),
                    ));
                }
            }
        }
    }

    /// Write a newline
    pub fn new_line(&mut self)
        requires
            old(self)@.wf(),
        ensures
            final(self)@.wf(),
            final(self)@ == old(self)@.new_line(),
    {
        let mut row: usize = 1;
        while row < BUFFER_HEIGHT
            invariant
                1 <= row <= 25,
                self@.wf(),
                self@.column == old(self)@.column,
                self@.color_code == old(self)@.color_code,
                forall|r: int|
                    0 <= r < row - 1 ==> #[trigger] self@.rows[r] == old(self)@.rows[r + 1],
                forall|r: int| row - 1 <= r < 25 ==> #[trigger] self@.rows[r] == old(self)@.rows[r],
            decreases 25 - row,
        {
            let ghost start = self@;
            let mut col: usize = 0;
            while col < BUFFER_WIDTH
                invariant
                    1 <= row < 25,
                    col <= 80,
                    self@.wf(),
                    start.wf(),
                    self@.column == start.column,
                    self@.color_code == start.color_code,
                    forall|r: int|
                        0 <= r < 25 && r != row - 1 ==> #[trigger] self@.rows[r] == start.rows[r],
                    forall|c: int|
                        0 <= c < col ==> #[trigger] self@.rows[row - 1][c]
                            == start.rows[row as int][c],
                    forall|c: int|
                        col <= c < 80 ==> #[trigger] self@.rows[row - 1][c]
                            == start.rows[row - 1][c],
                decreases 80 - col,
            {
                proof {
                    self.lemma_shape();
                }
                let character = self.buffer.chars[row][col];
                let ghost before = self@;
                proof {
                    assert(before.rows[row as int] == start.rows[row as int]);
                    assert(character == start.rows[row as int][col as int]);
                }
                self.buffer.chars[row - 1][col] = character;
                proof {
                    assert(self@.rows =~= before.rows.update(
                        row - 1,
                        before.rows[row - 1].update(col as int, character),
                    ));
                    assert forall|c: int| 0 <= c < col + 1 implies #[trigger] self@.rows[row
                        - 1][c] == start.rows[row as int][c] by {
                        if c < col {
                            assert(before.rows[row - 1][c] == start.rows[row as int][c]);
                        }
                    }
                }
                col += 1;
            }
            proof {
                assert(self@.rows[row - 1] =~= start.rows[row as int]);
            }
            row += 1;
        }
        self.clear_row(BUFFER_HEIGHT - 1);
        self.column_position = 0;
        proof {
            assert(self@.rows =~= old(self)@.new_line().rows);
        }
    }

    /// Clear a row
    pub fn clear_row(&mut self, row: usize)
        requires
            old(self)@.wf(),
            row < 25,
        ensures
            final(self)@.wf(),
            final(self)@ == old(self)@.clear_row(row as int),
    {
        let blank = ScreenChar { ascii_character: BLANK, color_code: self.color_code };
        let mut col: usize = 0;
        while col < BUFFER_WIDTH
            invariant
                col <= 80,
                row < 25,
                self@.wf(),
                self@.column == old(self)@.column,
                self@.color_code == old(self)@.color_code,
                blank == (ScreenChar { ascii_character: 0x20, color_code: self@.color_code }),
                forall|r: int|
                    0 <= r < 25 && r != row ==> #[trigger] self@.rows[r] == old(self)@.rows[r],
                forall|c: int| 0 <= c < col ==> #[trigger] self@.rows[row as int][c] == blank,
            decreases 80 - col,
        {
            let ghost before = self@;
            proof {
                self.lemma_shape();
            }
            self.buffer.chars[row][col] = blank;
            proof {
                assert(self@.rows =~= before.rows.update(
                    row as int,
                    before.rows[row as int].update(col as int, blank),
                ));
            }
            col += 1;
        }
        proof {
            assert(self@.rows[row as int] =~= blank_row(self@.color_code));
            assert(self@.rows =~= old(self)@.clear_row(row as int).rows);
        }
    }

    /// Writes the bytes of the text one after the other.
    pub fn write_str(&mut self, s: &str)
        requires
            old(self)@.wf(),
        ensures
            final(self)@.wf(),
            final(self)@ == old(self)@.write_bytes(s.spec_bytes()),
    {
        let bytes = s.as_bytes_vec();
        let mut i: usize = 0;
        proof {
            assert(bytes@.skip(0) =~= bytes@);
        }
        while i < bytes.len()
            invariant
                i <= bytes.len(),
                self@.wf(),
                old(self)@.write_bytes(bytes@) == self@.write_bytes(bytes@.skip(i as int)),
            decreases bytes.len() - i,
        {
            proof {
                assert(bytes@.skip(i as int)[0] == bytes[i as int]);
                assert(bytes@.skip(i as int).skip(1) =~= bytes@.skip(i + 1));
            }
            self.write_byte(bytes[i]);
            i += 1;
        }
    }
}

} // verus!
