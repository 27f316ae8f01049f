//! The text screen: 25 rows of 80 character cells, written at the bottom row
//! and scrolled upwards. The writer keeps the cells as plain values; putting
//! them before the eyes of the user is the display driver's part.

use vstd::prelude::*;
use vstd::string::StringSliceAdditionalSpecFns;

verus! {

/// The sixteen colours of the text screen.
#[derive(Debug, Clone, Copy, PartialEq, Eq, Structural)]
pub enum Color {
    Black,
    Blue,
    Green,
    Cyan,
    Red,
    Magenta,
    Brown,
    LightGray,
    DarkGray,
    LightBlue,
    LightGreen,
    LightCyan,
    LightRed,
    Pink,
    Yellow,
    White,
}

impl Color {
    /// The colour's number, 0 to 15, in the order of the declaration.
    pub open spec fn number(self) -> u8 {
        match self {
            Color::Black => 0,
            Color::Blue => 1,
            Color::Green => 2,
            Color::Cyan => 3,
            Color::Red => 4,
            Color::Magenta => 5,
            Color::Brown => 6,
            Color::LightGray => 7,
            Color::DarkGray => 8,
            Color::LightBlue => 9,
            Color::LightGreen => 10,
            Color::LightCyan => 11,
            Color::LightRed => 12,
            Color::Pink => 13,
            Color::Yellow => 14,
            Color::White => 15,
        }
    }

    /// The colour's number, 0 to 15.
    pub fn as_u8(self) -> (number: u8)
        ensures
            number == self.number(),
            number < 16,
    {
        match self {
            Color::Black => 0,
            Color::Blue => 1,
            Color::Green => 2,
            Color::Cyan => 3,
            Color::Red => 4,
            Color::Magenta => 5,
            Color::Brown => 6,
            Color::LightGray => 7,
            Color::DarkGray => 8,
            Color::LightBlue => 9,
            Color::LightGreen => 10,
            Color::LightCyan => 11,
            Color::LightRed => 12,
            Color::Pink => 13,
            Color::Yellow => 14,
            Color::White => 15,
        }
    }
}

/// The colours of one character cell: the background in the high four bits,
/// the foreground in the low four.
#[derive(Debug, Clone, Copy, PartialEq, Eq, Structural)]
pub struct ColorCode(pub u8);

impl ColorCode {
    /// The colour code of `foreground` on `background`.
    pub fn new(foreground: Color, background: Color) -> (code: ColorCode)
        ensures
            code.0 == background.number() * 16 + foreground.number(),
            code.0 == (background.number() << 4) | foreground.number(),
    {
        let high: u8 = background.as_u8();
        let low: u8 = foreground.as_u8();
        assert((high << 4) | low == high * 16 + low) by (bit_vector)
            requires
                high < 16,
                low < 16,
        ;
        ColorCode((high << 4) | low)
    }
}

/// Rows of the text screen.
pub const BUFFER_HEIGHT: usize = 25;

/// Character cells in a row of the text screen.
pub const BUFFER_WIDTH: usize = 80;

/// The byte shown in place of one that the screen cannot show.
pub const UNPRINTABLE: u8 = 0xfe;

/// The byte of a blank cell.
pub const SPACE: u8 = 0x20;

/// The byte that breaks the line.
pub const LINE_FEED: u8 = 0x0a;

/// One character cell: a character and its colours.
#[derive(Debug, Clone, Copy, PartialEq, Eq, Structural)]
pub struct ScreenChar {
    pub ascii_character: u8,
    pub color_code: ColorCode,
}

/// A row of nothing but spaces in the colours `color`.
pub open spec fn blank_row(color: ColorCode) -> Seq<ScreenChar> {
    Seq::new(
        BUFFER_WIDTH as nat,
        |col: int| ScreenChar { ascii_character: SPACE, color_code: color },
    )
}

/// The byte that is written for `byte`: itself where it is a printable
/// character or a line feed, `UNPRINTABLE` where it is not.
pub open spec fn shown(byte: u8) -> u8 {
    if 0x20 <= byte <= 0x7e || byte == LINE_FEED {
        byte
    } else {
        UNPRINTABLE
    }
}

/// What a writer holds: the cells of the screen, the column of the bottom
/// row that is written next, and the colours that are written.
pub struct Screen {
    pub column: int,
    pub color: ColorCode,
    pub rows: Seq<Seq<ScreenChar>>,
}

impl Screen {
    /// The screen has 25 rows of 80 cells.
    pub open spec fn wf(self) -> bool {
        &&& self.rows.len() == BUFFER_HEIGHT
        &&& forall|row: int| 0 <= row < self.rows.len() ==> (#[trigger] self.rows[row]).len()
            == BUFFER_WIDTH
        &&& 0 <= self.column
    }

    /// The screen of blank rows in the colours `color`.
    pub open spec fn blank(color: ColorCode) -> Screen {
        Screen {
            column: 0,
            color,
            rows: Seq::new(BUFFER_HEIGHT as nat, |row: int| blank_row(color)),
        }
    }

    /// The screen after a line break: every row moves up by one, the top row
    /// is lost, the bottom row is blank and written from its first column.
    pub open spec fn new_line(self) -> Screen {
        Screen {
            column: 0,
            rows: Seq::new(
                BUFFER_HEIGHT as nat,
                |row: int|
                    if row < BUFFER_HEIGHT - 1 {
                        self.rows[row + 1]
                    } else {
                        blank_row(self.color)
                    },
            ),
            ..self
        }
    }

    /// The screen with the row `row` blank.
    pub open spec fn clear_row(self, row: int) -> Screen {
        Screen { rows: self.rows.update(row, blank_row(self.color)), ..self }
    }

    /// The screen after `byte` is written: a line feed breaks the line; any
    /// other byte goes to the bottom row at the current column, after a line
    /// break where the row is full.
    pub open spec fn write_byte(self, byte: u8) -> Screen {
        if byte == LINE_FEED {
            self.new_line()
        } else {
            let at = if self.column >= BUFFER_WIDTH {
                self.new_line()
            } else {
                self
            };
            Screen {
                column: at.column + 1,
                rows: at.rows.update(
                    BUFFER_HEIGHT - 1,
                    at.rows[BUFFER_HEIGHT - 1].update(
                        at.column,
                        ScreenChar { ascii_character: byte, color_code: at.color },
                    ),
                ),
                ..at
            }
        }
    }

    /// The screen after the bytes of `bytes` are written in order, each as
    /// `shown` gives it.
    pub open spec fn write_bytes(self, bytes: Seq<u8>) -> Screen
        decreases bytes.len(),
    {
        if bytes.len() == 0 {
            self
        } else {
            self.write_bytes(bytes.drop_last()).write_byte(shown(bytes.last()))
        }
    }
}

/// Writing keeps the shape of the screen, and the column within the row.
pub proof fn lemma_write_byte(screen: Screen, byte: u8)
    requires
        screen.wf(),
    ensures
        screen.write_byte(byte).wf(),
        screen.write_byte(byte).column <= BUFFER_WIDTH,
        screen.write_byte(byte).color == screen.color,
{
}

/// A writer of the text screen.
pub struct Writer {
    column_position: usize,
    color_code: ColorCode,
    buffer: [[ScreenChar; BUFFER_WIDTH]; BUFFER_HEIGHT],
}

impl View for Writer {
    type V = Screen;

    closed spec fn view(&self) -> Screen {
        Screen {
            column: self.column_position as int,
            color: self.color_code,
            rows: Seq::new(BUFFER_HEIGHT as nat, |row: int| self.buffer[row]@),
        }
    }
}

impl Writer {
    /// A writer in the colours `color_code` over a blank screen.
    pub fn new(color_code: ColorCode) -> (writer: Writer)
        ensures
            writer@ == Screen::blank(color_code),
            writer@.wf(),
    {
        let blank = ScreenChar { ascii_character: SPACE, color_code };
        let row: [ScreenChar; BUFFER_WIDTH] = [blank; BUFFER_WIDTH];
        let buffer: [[ScreenChar; BUFFER_WIDTH]; BUFFER_HEIGHT] = [row; BUFFER_HEIGHT];
        let writer = Writer { column_position: 0, color_code, buffer };
        proof {
            assert(row@ =~= blank_row(color_code));
            assert(writer@.rows =~= Screen::blank(color_code).rows);
        }
        writer
    }

    /// The screen of a writer has 25 rows of 80 cells.
    pub proof fn lemma_screen_shape(self)
        ensures
            self@.wf(),
    {
    }

    /// Writes one byte: at the current column of the bottom row, or as a
    /// line break where it is a line feed.
    pub fn write_byte(&mut self, byte: u8)
        ensures
            final(self)@ == old(self)@.write_byte(byte),
            final(self)@.wf(),
    {
        if byte == LINE_FEED {
            self.new_line();
        } else {
            if self.column_position >= BUFFER_WIDTH {
                self.new_line();
            }
            let row = BUFFER_HEIGHT - 1;
            let col = self.column_position;
            let color_code = self.color_code;
            let ghost before = self@;
            self.buffer[row][col] = ScreenChar { ascii_character: byte, color_code };
            self.column_position += 1;
            proof {
                let expected = before.rows.update(
                    row as int,
                    before.rows[row as int].update(
                        col as int,
                        ScreenChar { ascii_character: byte, color_code },
                    ),
                );
                assert(self@.rows =~~= expected);
            }
        }
    }

    /// Writes the bytes of `s`. A byte that is no printable character and no
    /// line feed is written as `UNPRINTABLE`.
    pub fn write_string(&mut self, s: &str)
        ensures
            final(self)@ == old(self)@.write_bytes(s.spec_bytes()),
            final(self)@.wf(),
    {
        let bytes = s.as_bytes();
        let mut i: usize = 0;
        while i < bytes.len()
            invariant
                i <= bytes.len(),
                bytes@ == s.spec_bytes(),
                self@ == old(self)@.write_bytes(bytes@.take(i as int)),
            decreases bytes.len() - i,
        {
            let byte = bytes[i];
            proof {
                assert(bytes@.take(i + 1).drop_last() =~= bytes@.take(i as int));
            }
            if (0x20 <= byte && byte <= 0x7e) || byte == LINE_FEED {
                self.write_byte(byte);
            } else {
                self.write_byte(UNPRINTABLE);
            }
            i = i + 1;
        }
        proof {
            assert(bytes@.take(bytes.len() as int) =~= bytes@);
        }
    }

    /// Breaks the line: moves every row up by one and blanks the bottom row.
    fn new_line(&mut self)
        ensures
            final(self)@ == old(self)@.new_line(),
    {
        let ghost start = self.buffer;
        let mut row: usize = 1;
        while row < BUFFER_HEIGHT
            invariant
                1 <= row <= BUFFER_HEIGHT,
                self.column_position == old(self).column_position,
                self.color_code == old(self).color_code,
                start == old(self).buffer,
                forall|r: int| 0 <= r < row - 1 ==> #[trigger] self.buffer[r] == start[r + 1],
                forall|r: int|
                    row - 1 <= r < BUFFER_HEIGHT ==> #[trigger] self.buffer[r] == start[r],
            decreases BUFFER_HEIGHT - row,
        {
            let ghost at_row = self.buffer;
            let mut col: usize = 0;
            while col < BUFFER_WIDTH
                invariant
                    1 <= row < BUFFER_HEIGHT,
                    col <= BUFFER_WIDTH,
                    self.column_position == old(self).column_position,
                    self.color_code == old(self).color_code,
                    forall|r: int|
                        0 <= r < BUFFER_HEIGHT && r != row - 1 ==> #[trigger] self.buffer[r]
                            == at_row[r],
                    forall|c: int|
                        0 <= c < col ==> #[trigger] self.buffer[row - 1][c] == at_row[row as int][c],
                decreases BUFFER_WIDTH - col,
            {
                let character = self.buffer[row][col];
                self.buffer[row - 1][col] = character;
                col = col + 1;
            }
            row = row + 1;
        }
        self.clear_row(BUFFER_HEIGHT - 1);
        self.column_position = 0;
        proof {
            assert(self@.rows =~= old(self)@.new_line().rows);
        }
    }

    /// Blanks the row `row`.
    fn clear_row(&mut self, row: usize)
        requires
            row < BUFFER_HEIGHT,
        ensures
            final(self)@ == old(self)@.clear_row(row as int),
    {
        let blank = ScreenChar { ascii_character: SPACE, color_code: self.color_code };
        let ghost start = self.buffer;
        let mut col: usize = 0;
        while col < BUFFER_WIDTH
            invariant
                col <= BUFFER_WIDTH,
                row < BUFFER_HEIGHT,
                self.column_position == old(self).column_position,
                self.color_code == old(self).color_code,
                blank == (ScreenChar { ascii_character: SPACE, color_code: self.color_code }),
                start == old(self).buffer,
                forall|r: int|
                    0 <= r < BUFFER_HEIGHT && r != row ==> #[trigger] self.buffer[r] == start[r],
                forall|c: int| 0 <= c < col ==> #[trigger] self.buffer[row as int][c] == blank,
            decreases BUFFER_WIDTH - col,
        {
            self.buffer[row][col] = blank;
            col = col + 1;
        }
        proof {
            assert(self.buffer[row as int]@ =~= blank_row(self.color_code));
            assert(self@.rows =~= old(self)@.clear_row(row as int).rows);
        }
    }

    /// The column of the bottom row that is written next.
    pub fn column_position(&self) -> (column: usize)
        ensures
            column == self@.column,
    {
        self.column_position
    }

    /// The colours that are written.
    pub fn color_code(&self) -> (color: ColorCode)
        ensures
            color == self@.color,
    {
        self.color_code
    }

    /// The cell at `row` and `col`.
    pub fn char_at(&self, row: usize, col: usize) -> (cell: ScreenChar)
        requires
            row < BUFFER_HEIGHT,
            col < BUFFER_WIDTH,
        ensures
            cell == self@.rows[row as int][col as int],
    {
        self.buffer[row][col]
    }
}

} // verus!
