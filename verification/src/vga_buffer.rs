//! The text-mode screen: colours, the cells of the screen, and the writer
//! that prints bytes to them and scrolls.
//!
//! The writer owns the cells as plain values, in an array of its own: it
//! needs no heap. Whoever has the screen's memory copies the cells to it.

use vstd::prelude::*;
use vstd::std_specs::convert::FromSpecImpl;
use vstd::string::StringSliceAdditionalSpecFns;

verus! {

/// An `enum` type to give a `Color <-> u8` representation map
#[derive(Debug, Clone, Copy, PartialEq, Eq, Structural)]
pub enum Color {
    Black,
    Blue,
    Green,
    Cyan,
    Red,
    Magenta,
    Brown,
    LightGray,
    DarkGray,
    LightBlue,
    LightGreen,
    LightCyan,
    LightRed,
    Pink,
    Yellow,
    White,
}

impl Color {
    /// The number of the colour, from 0 for black to 15 for white.
    pub open spec fn code(self) -> u8 {
        match self {
            Color::Black => 0,
            Color::Blue => 1,
            Color::Green => 2,
            Color::Cyan => 3,
            Color::Red => 4,
            Color::Magenta => 5,
            Color::Brown => 6,
            Color::LightGray => 7,
            Color::DarkGray => 8,
            Color::LightBlue => 9,
            Color::LightGreen => 10,
            Color::LightCyan => 11,
            Color::LightRed => 12,
            Color::Pink => 13,
            Color::Yellow => 14,
            Color::White => 15,
        }
    }

    /// The colour with the number `value`, and black for a number that no
    /// colour has.
    pub open spec fn from_code(value: u8) -> Color {
        if value == 1 {
            Color::Blue
        } else if value == 2 {
            Color::Green
        } else if value == 3 {
            Color::Cyan
        } else if value == 4 {
            Color::Red
        } else if value == 5 {
            Color::Magenta
        } else if value == 6 {
            Color::Brown
        } else if value == 7 {
            Color::LightGray
        } else if value == 8 {
            Color::DarkGray
        } else if value == 9 {
            Color::LightBlue
        } else if value == 10 {
            Color::LightGreen
        } else if value == 11 {
            Color::LightCyan
        } else if value == 12 {
            Color::LightRed
        } else if value == 13 {
            Color::Pink
        } else if value == 14 {
            Color::Yellow
        } else if value == 15 {
            Color::White
        } else {
            Color::Black
        }
    }

    /// A colour is the colour of its number, and the number of a colour is
    /// below 16.
    pub proof fn lemma_code_round_trip(self)
        ensures
            Color::from_code(self.code()) == self,
            self.code() < 16,
    {
    }

    /// The number of the colour with the number `value` is `value`, where
    /// `value` is below 16.
    pub proof fn lemma_from_code_round_trip(value: u8)
        requires
            value < 16,
        ensures
            Color::from_code(value).code() == value,
    {
    }
}

impl From<u8> for Color {
    fn from(value: u8) -> (r: Self) {
        match value {
            0 => Self::Black,
            1 => Self::Blue,
            2 => Self::Green,
            3 => Self::Cyan,
            4 => Self::Red,
            5 => Self::Magenta,
            6 => Self::Brown,
            7 => Self::LightGray,
            8 => Self::DarkGray,
            9 => Self::LightBlue,
            10 => Self::LightGreen,
            11 => Self::LightCyan,
            12 => Self::LightRed,
            13 => Self::Pink,
            14 => Self::Yellow,
            15 => Self::White,
            _ => Self::Black,
        }
    }
}

impl FromSpecImpl<u8> for Color {
    open spec fn obeys_from_spec() -> bool {
        true
    }

    open spec fn from_spec(value: u8) -> Self {
        Color::from_code(value)
    }
}

impl From<Color> for u8 {
    fn from(val: Color) -> (r: Self) {
        match val {
            Color::Black => 0,
            Color::Blue => 1,
            Color::Green => 2,
            Color::Cyan => 3,
            Color::Red => 4,
            Color::Magenta => 5,
            Color::Brown => 6,
            Color::LightGray => 7,
            Color::DarkGray => 8,
            Color::LightBlue => 9,
            Color::LightGreen => 10,
            Color::LightCyan => 11,
            Color::LightRed => 12,
            Color::Pink => 13,
            Color::Yellow => 14,
            Color::White => 15,
        }
    }
}

impl FromSpecImpl<Color> for u8 {
    open spec fn obeys_from_spec() -> bool {
        true
    }

    open spec fn from_spec(val: Color) -> Self {
        val.code()
    }
}

/// A combination of `foreground` and `background` color: the number of the
/// background in the high four bits, that of the foreground in the low four.
#[derive(Debug, Clone, Copy, PartialEq, Eq, Structural)]
pub struct ColorCode(pub u8);

impl ColorCode {
    /// The number in the low four bits.
    pub open spec fn foreground(self) -> u8 {
        self.0 % 16
    }

    /// The number in the high four bits.
    pub open spec fn background(self) -> u8 {
        self.0 / 16
    }

    /// The code with the foreground `foreground` and the background of `self`.
    pub open spec fn with_foreground(self, foreground: Color) -> ColorCode {
        ColorCode((self.background() * 16 + foreground.code()) as u8)
    }

    /// The code with the background `background` and the foreground of `self`.
    pub open spec fn with_background(self, background: Color) -> ColorCode {
        ColorCode((background.code() * 16 + self.foreground()) as u8)
    }

    /// The code of `foreground` on `background`.
    pub fn new(foreground: Color, background: Color) -> (r: Self)
        ensures
            r.0 == background.code() * 16 + foreground.code(),
            r.foreground() == foreground.code(),
            r.background() == background.code(),
    {
        let fg: u8 = u8::from(foreground);
        let bg: u8 = u8::from(background);
        assert((bg << 4) | fg == bg * 16 + fg) by (bit_vector)
            requires
                fg < 16,
                bg < 16,
        ;
        Self((bg << 4) | fg)
    }

    /// The code made of the two numbers as they are: `background`, moved
    /// four bits up, or-ed with `foreground`.
    pub fn new_raw(foreground: u8, background: u8) -> (r: Self)
        ensures
            r.0 == (background << 4) | foreground,
            foreground < 16 ==> r.foreground() == foreground && r.background() == background % 16,
    {
        assert(foreground < 16 ==> ((background << 4) | foreground) % 16 == foreground && ((
        background << 4) | foreground) / 16 == background % 16) by (bit_vector);
        Self((background << 4) | foreground)
    }

    /// The numbers of the foreground and of the background.
    pub fn decrypt(&self) -> (r: (u8, u8))
        ensures
            r.0 == self.foreground(),
            r.1 == self.background(),
            r.0 < 16,
            r.1 < 16,
    {
        let value: u8 = self.0;
        assert(value & 0x0F == value % 16 && (value & 0xF0) >> 4 == value / 16) by (bit_vector);
        (value & 0x0F, (value & 0xF0) >> 4)
    }

    /// The number of the foreground.
    pub fn get_foreground(&self) -> (r: u8)
        ensures
            r == self.foreground(),
            r < 16,
    {
        self.decrypt().0
    }

    /// The number of the background.
    pub fn get_background(&self) -> (r: u8)
        ensures
            r == self.background(),
            r < 16,
    {
        self.decrypt().1
    }

    /// Sets the foreground and keeps the background.
    pub fn set_foreground(&mut self, foreground: Color)
        ensures
            *final(self) == old(self).with_foreground(foreground),
            final(self).foreground() == foreground.code(),
            final(self).background() == old(self).background(),
    {
        let fg: u8 = u8::from(foreground);
        let bg: u8 = self.get_background();
        assert((bg << 4) | fg == bg * 16 + fg) by (bit_vector)
            requires
                fg < 16,
                bg < 16,
        ;
        self.0 = (bg << 4) | fg;
    }

    /// Sets the background and keeps the foreground.
    pub fn set_background(&mut self, background: Color)
        ensures
            *final(self) == old(self).with_background(background),
            final(self).foreground() == old(self).foreground(),
            final(self).background() == background.code(),
    {
        let fg: u8 = self.get_foreground();
        let bg: u8 = u8::from(background);
        assert((bg << 4) | fg == bg * 16 + fg) by (bit_vector)
            requires
                fg < 16,
                bg < 16,
        ;
        self.0 = (bg << 4) | fg;
    }
}

impl Default for ColorCode {
    /// Default color combination (foreground := white, background := black)
    fn default() -> (r: Self)
        ensures
            r == ColorCode(15),
    {
        Self::new(Color::White, Color::Black)
    }
}

/// Character displayed on screen, with `ascii_char` and `color_code` info
#[derive(Debug, Clone, Copy, PartialEq, Eq, Structural)]
pub struct ScreenChar {
    pub ascii_char: u8,
    pub color_code: ColorCode,
}

/// The number of rows of the screen.
pub const BUFFER_HEIGHT: usize = 25;

/// The number of columns of the screen.
pub const BUFFER_WIDTH: usize = 80;

/// The number of cells of the screen.
pub const BUFFER_CELLS: usize = 2000;

/// The byte that is printed in place of a byte that cannot be printed.
pub const UNPRINTABLE: u8 = 0xfe;

/// The ASCII space.
pub const SPACE: u8 = 0x20;

/// The ASCII newline.
pub const NEWLINE: u8 = 0x0a;

/// The ASCII carriage return.
pub const CARRIAGE_RETURN: u8 = 0x0d;

/// The ASCII tab.
pub const TAB: u8 = 0x09;

/// A space in the colours `color`.
pub open spec fn blank(color: ColorCode) -> ScreenChar {
    ScreenChar { ascii_char: SPACE, color_code: color }
}

/// The byte that is printed for `byte`: itself where it is a printable ASCII
/// byte or a newline, else `UNPRINTABLE`.
pub open spec fn printed_byte(byte: u8) -> u8 {
    if (0x20 <= byte <= 0x7e) || byte == NEWLINE {
        byte
    } else {
        UNPRINTABLE
    }
}

/// The screen and the writer's place on it. The cell of row `r` and column
/// `c` is `cells[r * BUFFER_WIDTH + c]`.
pub struct Screen {
    pub row: int,
    pub col: int,
    pub color: ColorCode,
    pub cells: Seq<ScreenChar>,
}

impl Screen {
    /// Whether the place is on the screen, or just behind the end of a row,
    /// and the screen has all its cells.
    pub open spec fn wf(self) -> bool {
        &&& 0 <= self.row < BUFFER_HEIGHT
        &&& 0 <= self.col <= BUFFER_WIDTH
        &&& self.cells.len() == BUFFER_CELLS
    }

    /// The cell of row `row` and column `col`.
    pub open spec fn cell(self, row: int, col: int) -> ScreenChar {
        self.cells[row * BUFFER_WIDTH + col]
    }

    /// The screen with the row `row` blank.
    pub open spec fn clear_row(self, row: int) -> Screen {
        Screen {
            cells: Seq::new(
                BUFFER_CELLS as nat,
                |i: int|
                    if row * BUFFER_WIDTH <= i < (row + 1) * BUFFER_WIDTH {
                        blank(self.color)
                    } else {
                        self.cells[i]
                    },
            ),
            ..self
        }
    }

    /// The screen scrolled: every row is the row that was below it, the last
    /// row is blank, and the place is at the start of its row.
    pub open spec fn new_line(self) -> Screen {
        Screen {
            col: 0,
            cells: Seq::new(
                BUFFER_CELLS as nat,
                |i: int|
                    if i < BUFFER_CELLS - BUFFER_WIDTH {
                        self.cells[i + BUFFER_WIDTH]
                    } else {
                        blank(self.color)
                    },
            ),
            ..self
        }
    }

    /// The screen with `byte` at the place, and the place one column on. At
    /// the end of a row the screen scrolls first.
    pub open spec fn put(self, byte: u8) -> Screen {
        let at = if self.col >= BUFFER_WIDTH {
            self.new_line()
        } else {
            self
        };
        Screen {
            col: at.col + 1,
            cells: at.cells.update(
                at.row * BUFFER_WIDTH + at.col,
                ScreenChar { ascii_char: byte, color_code: at.color },
            ),
            ..at
        }
    }

    /// The screen after `byte` is written: a newline scrolls, a carriage
    /// return blanks the row of the place, a tab is four spaces, and every
    /// other byte is put at the place.
    pub open spec fn write_byte(self, byte: u8) -> Screen {
        if byte == NEWLINE {
            self.new_line()
        } else if byte == CARRIAGE_RETURN {
            self.clear_row(self.row)
        } else if byte == TAB {
            self.put(SPACE).put(SPACE).put(SPACE).put(SPACE)
        } else {
            self.put(byte)
        }
    }

    /// The screen after the character `c` is written: the low byte of its
    /// number is written as it is.
    pub open spec fn write_char(self, c: char) -> Screen {
        self.write_byte(((c as u32) % 256) as u8)
    }

    /// The screen after the bytes of `bytes` are written in their order, each
    /// as the byte that is printed for it.
    pub open spec fn write_bytes(self, bytes: Seq<u8>) -> Screen
        decreases bytes.len(),
    {
        if bytes.len() == 0 {
            self
        } else {
            self.write_bytes(bytes.drop_last()).write_byte(printed_byte(bytes.last()))
        }
    }

    /// The screen after a backspace: the place moves one column back, or to
    /// the end of the row above from the start of a row, and the cell there
    /// is blank.
    pub open spec fn backspace(self) -> Screen {
        let col = if self.col > 0 {
            self.col - 1
        } else {
            BUFFER_WIDTH - 1
        };
        let row = if self.col == 0 && self.row > 0 {
            self.row - 1
        } else {
            self.row
        };
        Screen { row, col, cells: self.cells.update(row * BUFFER_WIDTH + col, blank(self.color)), ..self }
    }

    /// The screen with the foreground colour `foreground`.
    pub open spec fn with_foreground(self, foreground: Color) -> Screen {
        Screen { color: self.color.with_foreground(foreground), ..self }
    }

    /// The screen with the colours `color`.
    pub open spec fn with_color(self, color: ColorCode) -> Screen {
        Screen { color, ..self }
    }

    /// Writing a byte keeps the screen well-formed, and never moves the
    /// place to another row.
    pub proof fn lemma_write_byte_wf(self, byte: u8)
        requires
            self.wf(),
        ensures
            self.write_byte(byte).wf(),
            self.write_byte(byte).row == self.row,
            self.write_byte(byte).color == self.color,
    {
    }

    /// Writing bytes keeps the screen well-formed, and never moves the
    /// place to another row.
    pub proof fn lemma_write_bytes_wf(self, bytes: Seq<u8>)
        requires
            self.wf(),
        ensures
            self.write_bytes(bytes).wf(),
            self.write_bytes(bytes).row == self.row,
            self.write_bytes(bytes).color == self.color,
        decreases bytes.len(),
    {
        if bytes.len() > 0 {
            self.lemma_write_bytes_wf(bytes.drop_last());
            self.write_bytes(bytes.drop_last()).lemma_write_byte_wf(printed_byte(bytes.last()));
        }
    }
}

/// The writer: the cells of the screen, a place on it, and the colours that
/// it prints in.
pub struct Writer {
    row_pos: usize,
    col_pos: usize,
    color_code: ColorCode,
    buffer: [ScreenChar; BUFFER_CELLS],
}

impl View for Writer {
    type V = Screen;

    closed spec fn view(&self) -> Screen {
        Screen {
            row: self.row_pos as int,
            col: self.col_pos as int,
            color: self.color_code,
            cells: self.buffer@,
        }
    }
}

impl Writer {
    /// The invariant of the writer.
    pub open spec fn wf(&self) -> bool {
        self@.wf()
    }

    /// A writer on a blank screen, at the start of the last row, that prints
    /// white on black.
    pub fn new() -> (r: Self)
        ensures
            r.wf(),
            r@.row == BUFFER_HEIGHT - 1,
            r@.col == 0,
            r@.color == ColorCode(15),
            r@.cells == Seq::new(BUFFER_CELLS as nat, |i: int| blank(ColorCode(15))),
    {
        let color_code = ColorCode::new(Color::White, Color::Black);
        let space = ScreenChar { ascii_char: SPACE, color_code };
        let r = Writer {
            row_pos: BUFFER_HEIGHT - 1,
            col_pos: 0,
            color_code,
            buffer: [space; BUFFER_CELLS],
        };
        assert(r@.cells =~= Seq::new(BUFFER_CELLS as nat, |i: int| blank(ColorCode(15))));
        r
    }

    /// A writer on the screen with the cells `cells`, at the start of the
    /// last row, that prints white on black.
    pub fn from_cells(cells: [ScreenChar; BUFFER_CELLS]) -> (r: Self)
        ensures
            r.wf(),
            r@.row == BUFFER_HEIGHT - 1,
            r@.col == 0,
            r@.color == ColorCode(15),
            r@.cells == cells@,
    {
        Writer {
            row_pos: BUFFER_HEIGHT - 1,
            col_pos: 0,
            color_code: ColorCode::new(Color::White, Color::Black),
            buffer: cells,
        }
    }

    /// The row of the writer's place.
    pub fn row(&self) -> (r: usize)
        ensures
            r == self@.row,
    {
        self.row_pos
    }

    /// The column of the writer's place.
    pub fn column(&self) -> (r: usize)
        ensures
            r == self@.col,
    {
        self.col_pos
    }

    /// The colours that the writer prints in.
    pub fn color(&self) -> (r: ColorCode)
        ensures
            r == self@.color,
    {
        self.color_code
    }

    /// The cell of row `row` and column `col`.
    pub fn cell(&self, row: usize, col: usize) -> (r: ScreenChar)
        requires
            self.wf(),
            row < BUFFER_HEIGHT,
            col < BUFFER_WIDTH,
        ensures
            r == self@.cell(row as int, col as int),
    {
        self.buffer[row * BUFFER_WIDTH + col]
    }

    /// Moves the place one column back, or to the end of the row above from
    /// the start of a row, and blanks the cell there.
    pub fn enforce_backspace(&mut self)
        requires
            old(self).wf(),
        ensures
            final(self).wf(),
            final(self)@ == old(self)@.backspace(),
    {
        if self.col_pos > 0 {
            self.col_pos -= 1;
        } else {
            self.col_pos = BUFFER_WIDTH - 1;
            if self.row_pos > 0 {
                self.row_pos -= 1;
            }
        }
        let index: usize = self.row_pos * BUFFER_WIDTH + self.col_pos;
        self.buffer[index] = ScreenChar { ascii_char: SPACE, color_code: self.color_code };
    }

    /// Write a byte on the screen (in one line)
    pub fn write_byte(&mut self, byte: u8)
        requires
            old(self).wf(),
        ensures
            final(self).wf(),
            final(self)@ == old(self)@.write_byte(byte),
    {
        if byte == NEWLINE {
            self.new_line();
        } else if byte == CARRIAGE_RETURN {
            self.clear_row(self.row_pos);
        } else if byte == TAB {
            self.put(SPACE);
            self.put(SPACE);
            self.put(SPACE);
            self.put(SPACE);
        } else {
            self.put(byte);
        }
    }

    /// Puts `byte` at the place and moves the place one column on, after a
    /// new line where the place is behind the end of the row.
    fn put(&mut self, byte: u8)
        requires
            old(self).wf(),
        ensures
            final(self).wf(),
            final(self)@ == old(self)@.put(byte),
    {
        if self.col_pos >= BUFFER_WIDTH {
            self.new_line();
        }
        let index: usize = self.row_pos * BUFFER_WIDTH + self.col_pos;
        self.buffer[index] = ScreenChar { ascii_char: byte, color_code: self.color_code };
        self.col_pos += 1;
    }

    /// Add a new line on the screen
    fn new_line(&mut self)
        requires
            old(self).wf(),
        ensures
            final(self).wf(),
            final(self)@ == old(self)@.new_line(),
    {
        let mut index: usize = 0;
        while index < BUFFER_CELLS - BUFFER_WIDTH
            invariant
                index <= BUFFER_CELLS - BUFFER_WIDTH,
                self.buffer@.len() == BUFFER_CELLS,
                self.row_pos == old(self).row_pos,
                self.col_pos == old(self).col_pos,
                self.color_code == old(self).color_code,
                old(self).buffer@.len() == BUFFER_CELLS,
                forall|i: int| 0 <= i < index ==> self.buffer@[i] == old(self).buffer@[i + BUFFER_WIDTH],
                forall|i: int| index <= i < BUFFER_CELLS ==> self.buffer@[i] == old(self).buffer@[i],
            decreases BUFFER_CELLS - BUFFER_WIDTH - index,
        {
            let character = self.buffer[index + BUFFER_WIDTH];
            self.buffer[index] = character;
            index = index + 1;
        }
        let ghost scrolled = self.buffer@;
        self.clear_row(BUFFER_HEIGHT - 1);
        self.col_pos = 0;
        assert(self@.cells =~= old(self)@.new_line().cells);
    }

    /// Clear the row `row` (mostly used after called `vga_buffer::Writer::new_line()`)
    fn clear_row(&mut self, row: usize)
        requires
            old(self).buffer@.len() == BUFFER_CELLS,
            row < BUFFER_HEIGHT,
        ensures
            final(self).row_pos == old(self).row_pos,
            final(self).col_pos == old(self).col_pos,
            final(self).color_code == old(self).color_code,
            final(self)@ == old(self)@.clear_row(row as int),
    {
        let space = ScreenChar { ascii_char: SPACE, color_code: self.color_code };
        let mut col: usize = 0;
        while col < BUFFER_WIDTH
            invariant
                col <= BUFFER_WIDTH,
                row < BUFFER_HEIGHT,
                space == blank(self.color_code),
                self.buffer@.len() == BUFFER_CELLS,
                self.row_pos == old(self).row_pos,
                self.col_pos == old(self).col_pos,
                self.color_code == old(self).color_code,
                old(self).buffer@.len() == BUFFER_CELLS,
                forall|i: int|
                    0 <= i < BUFFER_CELLS ==> self.buffer@[i] == (if row * BUFFER_WIDTH <= i < row
                        * BUFFER_WIDTH + col {
                        space
                    } else {
                        old(self).buffer@[i]
                    }),
            decreases BUFFER_WIDTH - col,
        {
            let index: usize = row * BUFFER_WIDTH + col;
            self.buffer[index] = space;
            col = col + 1;
        }
        assert(self@.cells =~= old(self)@.clear_row(row as int).cells);
    }

    /// Write a character on the screen: the low byte of its number, as
    /// `write_byte` writes it.
    pub fn write_char(&mut self, c: char)
        requires
            old(self).wf(),
        ensures
            final(self).wf(),
            final(self)@ == old(self)@.write_char(c),
    {
        let number: u32 = c as u32;
        self.write_byte((number % 256) as u8);
    }

    /// Sets the foreground colour that the writer prints in, and gives the
    /// number of the foreground colour that it printed in before.
    pub fn set_foreground(&mut self, foreground: Color) -> (previous: u8)
        requires
            old(self).wf(),
        ensures
            final(self).wf(),
            final(self)@ == old(self)@.with_foreground(foreground),
            previous == old(self)@.color.foreground(),
            previous < 16,
    {
        let previous: u8 = self.color_code.get_foreground();
        self.color_code.set_foreground(foreground);
        previous
    }

    /// Write all bytes in a string on the screen
    /// (via calling `vga_buffer::Writer::write_byte()`)
    pub fn write_string(&mut self, s: &str)
        requires
            old(self).wf(),
        ensures
            final(self).wf(),
            final(self)@ == old(self)@.write_bytes(s.spec_bytes()),
    {
        let bytes = s.as_bytes();
        let mut index: usize = 0;
        while index < bytes.len()
            invariant
                index <= bytes@.len(),
                bytes@ == s.spec_bytes(),
                self.wf(),
                self@ == old(self)@.write_bytes(bytes@.take(index as int)),
            decreases bytes@.len() - index,
        {
            let byte: u8 = bytes[index];
            proof {
                assert(bytes@.take(index + 1).drop_last() =~= bytes@.take(index as int));
            }
            if (0x20 <= byte && byte <= 0x7e) || byte == NEWLINE {
                // ASCII or a newline: write it
                self.write_byte(byte);
            } else {
                // Illegal: write a filled box
                self.write_byte(UNPRINTABLE);
            }
            index = index + 1;
        }
        assert(bytes@.take(index as int) =~= bytes@);
    }
}

/// Prints `s` with the foreground colour `color`, and leaves the writer with
/// the colours that it had.
pub fn safe_print_with_color(writer: &mut Writer, s: &str, color: Color)
    requires
        old(writer).wf(),
    ensures
        final(writer).wf(),
        final(writer)@ == old(writer)@.with_foreground(color).write_bytes(
            s.spec_bytes(),
        ).with_color(old(writer)@.color),
{
    let ghost before = writer.color_code;
    let foreground_before: u8 = writer.set_foreground(color);
    proof {
        writer@.lemma_write_bytes_wf(s.spec_bytes());
    }
    writer.write_string(s);
    writer.set_foreground(Color::from(foreground_before));
    proof {
        Color::lemma_from_code_round_trip(foreground_before);
        assert(writer.color_code == before);
    }
}

/// Prints `s` in the colours of the writer.
pub fn safe_print(writer: &mut Writer, s: &str)
    requires
        old(writer).wf(),
    ensures
        final(writer).wf(),
        final(writer)@ == old(writer)@.write_bytes(s.spec_bytes()),
{
    writer.write_string(s);
}

/// The foreground colour of an error: yellow.
pub const ERROR_COLOR: Color = Color::Yellow;

/// The foreground colour of a log line: cyan.
pub const LOG_COLOR: Color = Color::Cyan;

/// Prints `s` as an error: in yellow.
pub fn safe_eprint(writer: &mut Writer, s: &str)
    requires
        old(writer).wf(),
    ensures
        final(writer).wf(),
        final(writer)@ == old(writer)@.with_foreground(Color::Yellow).write_bytes(
            s.spec_bytes(),
        ).with_color(old(writer)@.color),
{
    safe_print_with_color(writer, s, ERROR_COLOR)
}

/// Prints `s` as a log line: in cyan.
pub fn safe_local_log(writer: &mut Writer, s: &str)
    requires
        old(writer).wf(),
    ensures
        final(writer).wf(),
        final(writer)@ == old(writer)@.with_foreground(Color::Cyan).write_bytes(
            s.spec_bytes(),
        ).with_color(old(writer)@.color),
{
    safe_print_with_color(writer, s, LOG_COLOR)
}

} // verus!
