//! The text console: a grid of 25 rows of 80 character cells, a cursor and
//! a current colour.

use vstd::prelude::*;
use vstd::string::StringSliceAdditionalSpecFns;

verus! {

/// Rows of the screen.
pub const BUFFER_ROWS: usize = 25;

/// Cells in a row.
pub const BUFFER_COLS: usize = 80;

/// Cells on the screen.
pub const BUFFER_CELLS: usize = 2000;

/// Physical address of the screen's cells.
pub const BUFFER_ADDRESS: usize = 0xb8000;

/// The sixteen colours of the console.
#[derive(Debug, Clone, Copy, PartialEq, Eq, Structural)]
pub enum Color {
    Black,
    Blue,
    Green,
    Cyan,
    Red,
    Magenta,
    Brown,
    LightGray,
    DarkGray,
    LightBlue,
    LightGreen,
    LightCyan,
    LightRed,
    Pink,
    Yellow,
    White,
}

impl Color {
    /// The colour's number, from 0 for black to 15 for white.
    pub open spec fn spec_code(self) -> u8 {
        match self {
            Color::Black => 0x0,
            Color::Blue => 0x1,
            Color::Green => 0x2,
            Color::Cyan => 0x3,
            Color::Red => 0x4,
            Color::Magenta => 0x5,
            Color::Brown => 0x6,
            Color::LightGray => 0x7,
            Color::DarkGray => 0x8,
            Color::LightBlue => 0x9,
            Color::LightGreen => 0xa,
            Color::LightCyan => 0xb,
            Color::LightRed => 0xc,
            Color::Pink => 0xd,
            Color::Yellow => 0xe,
            Color::White => 0xf,
        }
    }

    /// The colour's number, from 0 for black to 15 for white.
    #[verifier::when_used_as_spec(spec_code)]
    pub fn code(self) -> (code: u8)
        ensures
            code == self.spec_code(),
            code < 16,
    {
        match self {
            Color::Black => 0x0,
            Color::Blue => 0x1,
            Color::Green => 0x2,
            Color::Cyan => 0x3,
            Color::Red => 0x4,
            Color::Magenta => 0x5,
            Color::Brown => 0x6,
            Color::LightGray => 0x7,
            Color::DarkGray => 0x8,
            Color::LightBlue => 0x9,
            Color::LightGreen => 0xa,
            Color::LightCyan => 0xb,
            Color::LightRed => 0xc,
            Color::Pink => 0xd,
            Color::Yellow => 0xe,
            Color::White => 0xf,
        }
    }
}

/// A foreground and a background colour in one byte: the background in the
/// upper four bits, the foreground in the lower four.
#[derive(Debug, Clone, Copy, PartialEq, Eq, Structural)]
pub struct ColorSpec(pub u8);

impl ColorSpec {
    /// The byte for `foreground` on `background`.
    pub open spec fn of(foreground: Color, background: Color) -> ColorSpec {
        ColorSpec((background.code() * 16 + foreground.code()) as u8)
    }

    /// The byte for `foreground` on `background`.
    pub fn new(foreground: Color, background: Color) -> (spec: ColorSpec)
        ensures
            spec == Self::of(foreground, background),
    {
        let back: u8 = background.code();
        let fore: u8 = foreground.code();
        assert(back << 4 | fore == back * 16 + fore) by (bit_vector)
            requires
                back < 16,
                fore < 16,
        ;
        ColorSpec(back << 4 | fore)
    }

    /// Light gray on black.
    pub fn default() -> (spec: ColorSpec)
        ensures
            spec == Self::of(Color::LightGray, Color::Black),
            spec.0 == 0x07,
    {
        ColorSpec::new(Color::LightGray, Color::Black)
    }
}

/// One cell of the screen: a character and its colours.
#[derive(Debug, Clone, Copy, PartialEq, Eq, Structural)]
pub struct VgaChar {
    pub char: u8,
    pub spec: ColorSpec,
}

impl VgaChar {
    /// The cell that a cleared screen is made of: a space, light gray on
    /// black.
    pub open spec fn blank() -> VgaChar {
        VgaChar { char: 0x20, spec: ColorSpec::of(Color::LightGray, Color::Black) }
    }

    /// A space, light gray on black.
    pub fn default() -> (cell: VgaChar)
        ensures
            cell == Self::blank(),
    {
        VgaChar { char: 0x20, spec: ColorSpec::default() }
    }
}

/// The cells of the screen, row after row.
pub struct VgaBuffer {
    chars: Vec<VgaChar>,
}

impl View for VgaBuffer {
    type V = Seq<VgaChar>;

    /// The cells, row after row: the cell in row `r` and column `c` is at
    /// index `r * 80 + c`.
    closed spec fn view(&self) -> Seq<VgaChar> {
        self.chars@
    }
}

impl VgaBuffer {
    #[verifier::type_invariant]
    pub open spec fn full(self) -> bool {
        self@.len() == BUFFER_CELLS
    }

    /// A screen of blank cells.
    pub fn new() -> (buffer: VgaBuffer)
        ensures
            buffer@ == Seq::new(BUFFER_CELLS as nat, |i: int| VgaChar::blank()),
    {
        let mut chars: Vec<VgaChar> = Vec::new();
        let mut i: usize = 0;
        while i < BUFFER_CELLS
            invariant
                i <= BUFFER_CELLS,
                chars@.len() == i,
                forall|j: int| 0 <= j < i ==> chars@[j] == VgaChar::blank(),
            decreases BUFFER_CELLS - i,
        {
            chars.push(VgaChar::default());
            i += 1;
        }
        assert(chars@ =~= Seq::new(BUFFER_CELLS as nat, |i: int| VgaChar::blank()));
        VgaBuffer { chars: chars }
    }

    /// Physical address of the screen's cells.
    pub fn buffer() -> (address: usize)
        ensures
            address == BUFFER_ADDRESS,
    {
        BUFFER_ADDRESS
    }

    /// The cell in row `row` and column `col`.
    pub fn index(&self, row: usize, col: usize) -> (cell: VgaChar)
        requires
            row < BUFFER_ROWS,
            col < BUFFER_COLS,
        ensures
            cell == self@[row * 80 + col],
    {
        proof {
            use_type_invariant(self);
        }
        self.chars[row * BUFFER_COLS + col]
    }

    /// Replaces the cell in row `row` and column `col`.
    pub fn index_mut(&mut self, row: usize, col: usize, cell: VgaChar)
        requires
            row < BUFFER_ROWS,
            col < BUFFER_COLS,
        ensures
            final(self)@ == old(self)@.update(row * 80 + col, cell),
        no_unwind
    {
        proof {
            use_type_invariant(&*self);
        }
        self.chars[row * BUFFER_COLS + col] = cell;
    }
}

/// Where on the screen a text is to stand.
#[derive(Debug, Clone, Copy, PartialEq, Eq, Structural)]
pub enum Align {
    Top,
    Center,
    Right,
    Bottom,
    Left,
}

/// The row for a vertical alignment.
pub open spec fn aligned_row(align: Align) -> usize {
    match align {
        Align::Top => 0,
        Align::Center => 12,
        _ => 24,
    }
}

/// The column at which a text of `len` bytes starts for a horizontal
/// alignment.
pub open spec fn aligned_col(align: Align, len: int) -> int {
    match align {
        Align::Left => 0,
        Align::Center => (79 - len) / 2,
        _ => 79 - len,
    }
}

/// The row that stands for a vertical alignment.
pub trait AlignRow {
    /// The row for `align`, which is top, centre or bottom.
    fn rowalign(align: Align) -> (row: usize)
        requires
            align is Top || align is Center || align is Bottom,
        ensures
            row == aligned_row(align),
    ;
}

/// The column that stands for a horizontal alignment of a text.
pub trait AlignCol {
    /// The column at which `str` starts for `align`, which is left,
    /// centre or right. A text that is centred or set to the right is no
    /// longer than 79 bytes.
    fn colalign(align: Align, str: &str) -> (col: usize)
        requires
            align is Left || align is Center || align is Right,
            !(align is Left) ==> str.spec_bytes().len() <= 79,
        ensures
            col == aligned_col(align, str.spec_bytes().len() as int),
    ;
}

/// The console as a value: the cells, the cursor and the current colours.
pub struct Screen {
    pub cells: Seq<VgaChar>,
    pub row: int,
    pub col: int,
    pub color: ColorSpec,
}

impl Screen {
    /// The cells are those of a screen and the cursor is on it.
    pub open spec fn wf(self) -> bool {
        self.cells.len() == BUFFER_CELLS && 0 <= self.row < 25 && 0 <= self.col < 80
    }

    /// The cells with row `row` made blank.
    pub open spec fn cleared(cells: Seq<VgaChar>, row: int) -> Seq<VgaChar> {
        Seq::new(
            cells.len(),
            |i: int|
                if row * 80 <= i < row * 80 + 80 {
                    VgaChar::blank()
                } else {
                    cells[i]
                },
        )
    }

    /// The cells with each of the rows 0 to 23 replaced by the row below
    /// it; the last row stays.
    pub open spec fn scrolled(cells: Seq<VgaChar>) -> Seq<VgaChar> {
        Seq::new(
            cells.len(),
            |i: int|
                if i < 24 * 80 {
                    cells[i + 80]
                } else {
                    cells[i]
                },
        )
    }

    /// The screen after a line break: the cursor goes to the start of the
    /// next row; where that is the last row, the screen scrolls up by one
    /// row instead, and the cursor stands at the start of row 23, which
    /// is made blank.
    pub open spec fn new_line(self) -> Screen {
        if self.row + 1 == 24 {
            Screen { cells: Self::cleared(Self::scrolled(self.cells), 23), row: 23, col: 0, ..self }
        } else {
            Screen { row: self.row + 1, col: 0, ..self }
        }
    }

    /// Whether `byte` can be written: the write does not take the cursor
    /// below the last row.
    pub open spec fn takes(self, byte: u8) -> bool {
        self.row < 24 || (byte != 0x0a && self.col < 79)
    }

    /// The screen after `byte` was written in the colours `spec`, or in
    /// the current colours. A line feed breaks the line. Any other byte
    /// goes into the cell at the cursor, which moves on by one column,
    /// and, behind the last column, to the next line.
    pub open spec fn put(self, byte: u8, spec: Option<ColorSpec>) -> Screen {
        if byte == 0x0a {
            self.new_line()
        } else {
            let cell = VgaChar {
                char: byte,
                spec: match spec {
                    Some(spec) => spec,
                    None => self.color,
                },
            };
            let written = Screen {
                cells: self.cells.update(self.row * 80 + self.col, cell),
                col: self.col + 1,
                ..self
            };
            if written.col >= 80 {
                written.new_line()
            } else {
                written
            }
        }
    }

    /// Whether the bytes of `bytes` can be written one after the other.
    pub open spec fn takes_all(self, bytes: Seq<u8>) -> bool
        decreases bytes.len(),
    {
        if bytes.len() == 0 {
            true
        } else {
            self.takes(bytes[0]) && self.put(bytes[0], None).takes_all(bytes.drop_first())
        }
    }

    /// The screen after the bytes of `bytes` were written one after the
    /// other in the current colours.
    pub open spec fn put_all(self, bytes: Seq<u8>) -> Screen
        decreases bytes.len(),
    {
        if bytes.len() == 0 {
            self
        } else {
            self.put(bytes[0], None).put_all(bytes.drop_first())
        }
    }

    /// Above the last row any text can be written, and the cursor stays
    /// above the last row.
    pub proof fn lemma_takes_all(self, bytes: Seq<u8>)
        requires
            self.wf(),
            self.row < 24,
        ensures
            self.takes_all(bytes),
            self.put_all(bytes).wf(),
            self.put_all(bytes).row < 24,
        decreases bytes.len(),
    {
        if bytes.len() > 0 {
            self.put(bytes[0], None).lemma_takes_all(bytes.drop_first());
        }
    }
}

/// Writes text to the screen at a cursor.
pub struct Writer {
    row: usize,
    col: usize,
    color_spec: ColorSpec,
    buffer: VgaBuffer,
}

impl View for Writer {
    type V = Screen;

    /// The console as a value.
    closed spec fn view(&self) -> Screen {
        Screen {
            cells: self.buffer@,
            row: self.row as int,
            col: self.col as int,
            color: self.color_spec,
        }
    }
}

impl Writer {
    #[verifier::type_invariant]
    pub open spec fn on_screen(self) -> bool {
        self@.wf()
    }

    /// A writer on a blank screen, with the cursor in the upper left
    /// corner, in light gray on black.
    pub fn new() -> (writer: Writer)
        ensures
            writer@ == (Screen {
                cells: Seq::new(BUFFER_CELLS as nat, |i: int| VgaChar::blank()),
                row: 0,
                col: 0,
                color: ColorSpec::of(Color::LightGray, Color::Black),
            }),
    {
        Writer { row: 0, col: 0, color_spec: ColorSpec::default(), buffer: VgaBuffer::new() }
    }

    /// A writer on the screen `buffer`, with the cursor in the upper left
    /// corner, in the colours `spec`.
    pub fn on(buffer: VgaBuffer, spec: ColorSpec) -> (writer: Writer)
        ensures
            writer@ == (Screen { cells: buffer@, row: 0, col: 0, color: spec }),
    {
        proof {
            use_type_invariant(&buffer);
        }
        Writer { row: 0, col: 0, color_spec: spec, buffer: buffer }
    }

    /// The cell in row `row` and column `col`.
    pub fn cell(&self, row: usize, col: usize) -> (cell: VgaChar)
        requires
            row < BUFFER_ROWS,
            col < BUFFER_COLS,
        ensures
            cell == self@.cells[row * 80 + col],
    {
        self.buffer.index(row, col)
    }

    /// Row and column of the cursor.
    pub fn cursor(&self) -> (position: (usize, usize))
        ensures
            position.0 == self@.row,
            position.1 == self@.col,
            self@.wf(),
    {
        proof {
            use_type_invariant(self);
        }
        (self.row, self.col)
    }

    /// Puts the cursor into row `row` and column `col`, or into the last
    /// row or column where the screen has no such row or column.
    pub fn move_cursor(&mut self, row: usize, col: usize)
        ensures
            final(self)@ == (Screen {
                row: if row < 24 { row as int } else { 24 },
                col: if col < 79 { col as int } else { 79 },
                ..old(self)@
            }),
    {
        proof {
            use_type_invariant(&*self);
        }
        self.row = if row < BUFFER_ROWS - 1 {
            row
        } else {
            BUFFER_ROWS - 1
        };
        self.col = if col < BUFFER_COLS - 1 {
            col
        } else {
            BUFFER_COLS - 1
        };
    }

    /// Makes every row but the last blank and puts the cursor into the
    /// upper left corner.
    pub fn clear(&mut self)
        ensures
            final(self)@.row == 0,
            final(self)@.col == 0,
            final(self)@.color == old(self)@.color,
            final(self)@.cells.len() == old(self)@.cells.len(),
            forall|i: int|
                0 <= i < BUFFER_CELLS ==> #[trigger] final(self)@.cells[i] == if i < 24 * 80 {
                    VgaChar::blank()
                } else {
                    old(self)@.cells[i]
                },
    {
        proof {
            use_type_invariant(&*self);
        }
        let mut row: usize = 0;
        while row < BUFFER_ROWS - 1
            invariant
                row <= 24,
                self@.wf(),
                self@.color == old(self)@.color,
                forall|i: int|
                    0 <= i < BUFFER_CELLS ==> #[trigger] self@.cells[i] == if i < row * 80 {
                        VgaChar::blank()
                    } else {
                        old(self)@.cells[i]
                    },
            decreases 24 - row,
        {
            self.row = row;
            self.clear_row();
            row += 1;
        }
        self.move_cursor(0, 0);
    }

    /// Makes `spec` the current colours.
    pub fn set_color(&mut self, spec: ColorSpec)
        ensures
            final(self)@ == (Screen { color: spec, ..old(self)@ }),
    {
        proof {
            use_type_invariant(&*self);
        }
        self.color_spec = spec;
    }

    /// Writes `byte` at the cursor, in the colours `spec` or in the
    /// current ones.
    pub fn write_byte(&mut self, byte: u8, spec: Option<ColorSpec>)
        requires
            old(self)@.takes(byte),
        ensures
            final(self)@ == old(self)@.put(byte, spec),
    {
        proof {
            use_type_invariant(&*self);
        }
        if byte == 0x0a {
            self.new_line();
        } else {
            let cell = VgaChar {
                char: byte,
                spec: match spec {
                    Some(spec) => spec,
                    None => self.color_spec,
                },
            };
            self.buffer.index_mut(self.row, self.col, cell);
            if self.col + 1 >= BUFFER_COLS {
                self.new_line();
            } else {
                self.col += 1;
            }
        }
    }

    /// Breaks the line.
    pub fn new_line(&mut self)
        requires
            old(self)@.row < 24,
        ensures
            final(self)@ == old(self)@.new_line(),
    {
        proof {
            use_type_invariant(&*self);
        }
        self.col = 0;
        if self.row + 1 == BUFFER_ROWS - 1 {
            self.scroll_up();
            self.clear_row();
        } else {
            self.row += 1;
        }
    }

    /// Replaces each of the rows 0 to 23 by the row below it.
    pub fn scroll_up(&mut self)
        ensures
            final(self)@ == (Screen { cells: Screen::scrolled(old(self)@.cells), ..old(self)@ }),
    {
        proof {
            use_type_invariant(&*self);
        }
        let mut i: usize = 0;
        while i < (BUFFER_ROWS - 1) * BUFFER_COLS
            invariant
                i <= 24 * 80,
                self.row == old(self).row,
                self.col == old(self).col,
                self.row < 25,
                self.col < 80,
                self.color_spec == old(self).color_spec,
                self.buffer@.len() == BUFFER_CELLS,
                old(self).buffer@.len() == BUFFER_CELLS,
                forall|j: int|
                    0 <= j < BUFFER_CELLS ==> #[trigger] self.buffer@[j] == if j < i {
                        old(self).buffer@[j + 80]
                    } else {
                        old(self).buffer@[j]
                    },
            decreases 24 * 80 - i,
        {
            let below = self.buffer.index((i + BUFFER_COLS) / BUFFER_COLS, i % BUFFER_COLS);
            self.buffer.index_mut(i / BUFFER_COLS, i % BUFFER_COLS, below);
            i += 1;
        }
        assert(self.buffer@ =~= Screen::scrolled(old(self).buffer@));
    }

    /// Makes the row of the cursor blank.
    pub fn clear_row(&mut self)
        ensures
            final(self)@ == (Screen {
                cells: Screen::cleared(old(self)@.cells, old(self)@.row),
                ..old(self)@
            }),
    {
        proof {
            use_type_invariant(&*self);
        }
        let mut col: usize = 0;
        while col < BUFFER_COLS
            invariant
                col <= 80,
                self.row == old(self).row,
                self.row < 25,
                self.col == old(self).col,
                self.col < 80,
                self.color_spec == old(self).color_spec,
                self.buffer@.len() == BUFFER_CELLS,
                old(self).buffer@.len() == BUFFER_CELLS,
                forall|j: int|
                    0 <= j < BUFFER_CELLS ==> #[trigger] self.buffer@[j] == if self.row * 80 <= j
                        < self.row * 80 + col {
                        VgaChar::blank()
                    } else {
                        old(self).buffer@[j]
                    },
            decreases 80 - col,
        {
            self.buffer.index_mut(self.row, col, VgaChar::default());
            col += 1;
        }
        assert(self.buffer@ =~= Screen::cleared(old(self).buffer@, old(self).row as int));
    }

    /// Writes the bytes of `s` one after the other, in the current
    /// colours.
    pub fn write_str(&mut self, s: &str)
        requires
            old(self)@.takes_all(s.spec_bytes()),
        ensures
            final(self)@ == old(self)@.put_all(s.spec_bytes()),
    {
        let bytes = s.as_bytes();
        let mut i: usize = 0;
        proof {
            assert(bytes@.skip(0) =~= bytes@);
        }
        while i < bytes.len()
            invariant
                i <= bytes.len(),
                bytes@ == s.spec_bytes(),
                self@.takes_all(bytes@.skip(i as int)),
                self@.put_all(bytes@.skip(i as int)) == old(self)@.put_all(bytes@),
            decreases bytes.len() - i,
        {
            proof {
                assert(bytes@.skip(i as int).drop_first() =~= bytes@.skip(i as int + 1));
                assert(bytes@.skip(i as int)[0] == bytes@[i as int]);
            }
            self.write_byte(bytes[i], None);
            i += 1;
        }
    }
}

impl AlignRow for Writer {
    /// Row 0 for the top, row 12 for the centre, row 24 for the bottom.
    fn rowalign(align: Align) -> (row: usize) {
        match align {
            Align::Top => 0,
            Align::Center => (BUFFER_ROWS - 1) / 2,
            _ => BUFFER_ROWS - 1,
        }
    }
}

impl AlignCol for Writer {
    /// Column 0 for the left; for the right the column from which the text
    /// ends in the last column but one; for the centre the column halfway.
    fn colalign(align: Align, str: &str) -> (col: usize) {
        match align {
            Align::Left => 0,
            Align::Center => ((BUFFER_COLS - 1) - str.len()) / 2,
            _ => (BUFFER_COLS - 1) - str.len(),
        }
    }
}

/// The text that stands before the message of a kernel panic.
pub open spec fn panic_banner() -> Seq<u8> {
    "\n\nkernel panic: ".spec_bytes()
}

/// Reports a kernel panic on the screen `buffer`: from the upper left
/// corner, two line breaks and the words "kernel panic: " in light red,
/// then `message` in light gray.
pub fn kerror(buffer: VgaBuffer, message: &str) -> (writer: Writer)
    ensures
        writer@ == (Screen {
            color: ColorSpec::of(Color::LightGray, Color::Black),
            ..(Screen {
                cells: buffer@,
                row: 0,
                col: 0,
                color: ColorSpec::of(Color::LightRed, Color::Black),
            }).put_all(panic_banner())
        }).put_all(message.spec_bytes()),
{
    proof {
        use_type_invariant(&buffer);
    }
    let mut writer = Writer::on(buffer, ColorSpec::new(Color::LightRed, Color::Black));
    proof {
        writer@.lemma_takes_all(panic_banner());
    }
    writer.write_str("\n\nkernel panic: ");
    writer.set_color(ColorSpec::default());
    proof {
        writer@.lemma_takes_all(message.spec_bytes());
    }
    writer.write_str(message);
    writer
}

} // verus!
