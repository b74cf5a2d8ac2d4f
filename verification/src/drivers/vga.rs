use vstd::prelude::*;
use vstd::string::StringSliceAdditionalSpecFns;

verus! {

pub const VGA_BUFFER_WIDTH: usize = 80;
pub const VGA_BUFFER_HIGHT: usize = 25;

/// The sixteen VGA text colours.
#[derive(Clone, Copy, Debug)]
pub enum ColorCode {
    Black,
    Blue,
    Green,
    Cyan,
    Red,
    Magenta,
    Brown,
    LightGray,
    DarkGray,
    LightBlue,
    LightGreen,
    LightCyan,
    LightRed,
    LightMangenta,
    Yellow,
    White,
}

impl ColorCode {
    /// The hardware number of the colour.
    pub open spec fn code(self) -> u8 {
        match self {
            ColorCode::Black => 0x0,
            ColorCode::Blue => 0x1,
            ColorCode::Green => 0x2,
            ColorCode::Cyan => 0x3,
            ColorCode::Red => 0x4,
            ColorCode::Magenta => 0x5,
            ColorCode::Brown => 0x6,
            ColorCode::LightGray => 0x7,
            ColorCode::DarkGray => 0x8,
            ColorCode::LightBlue => 0x9,
            ColorCode::LightGreen => 0xa,
            ColorCode::LightCyan => 0xb,
            ColorCode::LightRed => 0xc,
            ColorCode::LightMangenta => 0xd,
            ColorCode::Yellow => 0xe,
            ColorCode::White => 0xf,
        }
    }

    pub fn value(&self) -> (r: u8)
        ensures
            r == self.code(),
    {
        match self {
            ColorCode::Black => 0x0,
            ColorCode::Blue => 0x1,
            ColorCode::Green => 0x2,
            ColorCode::Cyan => 0x3,
            ColorCode::Red => 0x4,
            ColorCode::Magenta => 0x5,
            ColorCode::Brown => 0x6,
            ColorCode::LightGray => 0x7,
            ColorCode::DarkGray => 0x8,
            ColorCode::LightBlue => 0x9,
            ColorCode::LightGreen => 0xa,
            ColorCode::LightCyan => 0xb,
            ColorCode::LightRed => 0xc,
            ColorCode::LightMangenta => 0xd,
            ColorCode::Yellow => 0xe,
            ColorCode::White => 0xf,
        }
    }
}

/// A character cell: the character and its attribute byte, whose high
/// nibble is the background colour and low nibble the foreground colour.
#[derive(Clone, Copy, Debug)]
pub struct VGACharacter {
    pub character: u8,
    pub color: u8,
}

/// The cell of a cleared screen: a space, dark gray on dark gray.
pub open spec fn blank_cell() -> VGACharacter {
    VGACharacter { character: 32, color: 0x88 }
}

/// A character written to the screen: white on dark gray.
pub open spec fn glyph_cell(c: u8) -> VGACharacter {
    VGACharacter { character: c, color: 0x8F }
}

impl VGACharacter {
    pub fn new(character: u8, foreground: ColorCode, background: ColorCode) -> (r: Self)
        ensures
            r.character == character,
            r.color == background.code() * 16 + foreground.code(),
    {
        let bg = background.value();
        let fg = foreground.value();
        let color = (bg << 4u8) | fg;
        assert(bg < 16 && fg < 16 ==> ((bg << 4u8) | fg) == bg * 16 + fg) by (bit_vector);
        VGACharacter { character, color }
    }
}

/// The text screen: 25 rows of 80 cells, row after row, and the cursor.
pub struct VGABuffer {
    buffer: Vec<VGACharacter>,
    x_pos: usize,
    y_pos: usize,
}

/// The abstract screen: its cells row after row, and the cursor column and
/// row.
pub struct VgaView {
    pub cells: Seq<VGACharacter>,
    pub x: int,
    pub y: int,
}

impl View for VGABuffer {
    type V = VgaView;

    closed spec fn view(&self) -> VgaView {
        VgaView { cells: self.buffer@, x: self.x_pos as int, y: self.y_pos as int }
    }
}

impl VgaView {
    pub open spec fn wf(self) -> bool {
        &&& self.cells.len() == 2000
        &&& 0 <= self.x <= 80
        &&& 0 <= self.y < 25
    }

    /// The cell at row `y`, column `x`.
    pub open spec fn cell(self, y: int, x: int) -> VGACharacter {
        self.cells[y * 80 + x]
    }

    /// Row `line` blanked.
    pub open spec fn cleared_line(self, line: int) -> VgaView {
        VgaView {
            cells: Seq::new(self.cells.len(), |i: int| if i / 80 == line { blank_cell() } else { self.cells[i] }),
            ..self
        }
    }

    /// Every row moved up one, the bottom row blank, the cursor at the start
    /// of the bottom row.
    pub open spec fn scrolled(self) -> VgaView {
        VgaView {
            cells: Seq::new(2000, |i: int| if i < 1920 { self.cells[i + 80] } else { blank_cell() }),
            x: 0,
            y: 24,
        }
    }

    /// The cursor at the start of the next row, scrolling on the last.
    pub open spec fn newlined(self) -> VgaView {
        if self.y < 24 {
            VgaView { x: 0, y: self.y + 1, ..self }
        } else {
            self.scrolled()
        }
    }

    /// The character before the cursor erased and the cursor moved back,
    /// unless the cursor is at the start of its row.
    pub open spec fn deleted(self) -> VgaView {
        if self.x > 0 {
            VgaView {
                cells: self.cells.update(self.y * 80 + self.x - 1, VGACharacter { character: 32, color: 0x8F }),
                x: self.x - 1,
                ..self
            }
        } else {
            self
        }
    }

    /// Byte `c` written at the cursor, on the next row when this one is full.
    pub open spec fn put(self, c: u8) -> VgaView {
        if self.x < 80 {
            VgaView { cells: self.cells.update(self.y * 80 + self.x, glyph_cell(c)), x: self.x + 1, ..self }
        } else {
            let w = self.newlined();
            VgaView { cells: w.cells.update(w.y * 80 + w.x, glyph_cell(c)), x: w.x + 1, ..w }
        }
    }

    /// The screen after one byte: a newline, a backspace or delete, or a
    /// character.
    pub open spec fn wrote(self, byte: u8) -> VgaView {
        if byte == 10 {
            self.newlined()
        } else if byte == 8 || byte == 0x7f {
            self.deleted()
        } else {
            self.put(byte)
        }
    }

    /// The screen after the bytes `bs`, first to last.
    pub open spec fn wrote_all(self, bs: Seq<u8>) -> VgaView
        decreases bs.len(),
    {
        if bs.len() == 0 {
            self
        } else {
            self.wrote_all(bs.drop_last()).wrote(bs.last())
        }
    }

    /// The bytes of VGA text memory showing this screen: each cell's
    /// character, then its attribute.
    pub open spec fn frame(self) -> Seq<u8> {
        Seq::new(4000, |i: int| if i % 2 == 0 { self.cells[i / 2].character } else { self.cells[i / 2].color })
    }
}

impl VGABuffer {
    /// The screen has its 25 rows of 80 cells and the cursor is on it.
    pub open spec fn wf(&self) -> bool {
        self@.wf()
    }

    /// A blank screen with the cursor at the top left.
    pub fn new() -> (r: VGABuffer)
        ensures
            r.wf(),
            r@.wf(),
            r@.cells.len() == 2000,
            r@.x == 0,
            r@.y == 0,
            forall|i: int| 0 <= i < 2000 ==> #[trigger] r@.cells[i] == blank_cell(),
    {
        let blank = VGACharacter::new(0x20u8, ColorCode::DarkGray, ColorCode::DarkGray);
        let buffer = vec![blank; VGA_BUFFER_WIDTH * VGA_BUFFER_HIGHT];
        let r = VGABuffer { buffer, x_pos: 0, y_pos: 0 };
        proof {
            assert forall|i: int| 0 <= i < 2000 implies #[trigger] r@.cells[i] == blank_cell() by {
                assert(cloned(blank, r.buffer@[i]));
            }
        }
        r
    }

    pub fn clear_line(&mut self, line: usize)
        requires
            old(self).wf(),
            line < 25,
        ensures
            final(self).wf(),
            final(self)@ == old(self)@.cleared_line(line as int),
    {
        let blank = VGACharacter::new(0x20u8, ColorCode::DarkGray, ColorCode::DarkGray);
        let mut x: usize = 0;
        while x < VGA_BUFFER_WIDTH
            invariant
                line < 25,
                x <= 80,
                blank == blank_cell(),
                self@.cells.len() == 2000,
                self@.x == old(self)@.x,
                self@.y == old(self)@.y,
                forall|i: int| 0 <= i < 2000 ==> #[trigger] self@.cells[i] == (
                    if i / 80 == line && i % 80 < x { blank_cell() } else { old(self)@.cells[i] }),
            decreases 80 - x,
        {
            self.buffer.set(line * VGA_BUFFER_WIDTH + x, blank);
            x = x + 1;
        }
        proof {
            assert(self@.cells =~= old(self)@.cleared_line(line as int).cells);
        }
    }

    pub fn scroll_one_line(&mut self)
        requires
            old(self).wf(),
        ensures
            final(self).wf(),
            final(self)@ == old(self)@.scrolled(),
    {
        let mut k: usize = 0;
        while k < (VGA_BUFFER_HIGHT - 1) * VGA_BUFFER_WIDTH
            invariant
                k <= 1920,
                self@.cells.len() == 2000,
                0 <= self@.x <= 80,
                0 <= self@.y < 25,
                forall|i: int| 0 <= i < 2000 ==> #[trigger] self@.cells[i] == (
                    if i < k { old(self)@.cells[i + 80] } else { old(self)@.cells[i] }),
            decreases 1920 - k,
        {
            let c = self.buffer[k + VGA_BUFFER_WIDTH];
            self.buffer.set(k, c);
            k = k + 1;
        }
        self.clear_line(VGA_BUFFER_HIGHT - 1);
        self.x_pos = 0;
        self.y_pos = VGA_BUFFER_HIGHT - 1;
        proof {
            assert(self@.cells =~= old(self)@.scrolled().cells);
        }
    }

    pub fn new_line(&mut self)
        requires
            old(self).wf(),
        ensures
            final(self).wf(),
            final(self)@ == old(self)@.newlined(),
    {
        if self.y_pos < VGA_BUFFER_HIGHT - 1 {
            self.x_pos = 0;
            self.y_pos = self.y_pos + 1;
        } else {
            self.scroll_one_line();
        }
    }

    pub fn delete_last_char(&mut self)
        requires
            old(self).wf(),
        ensures
            final(self).wf(),
            final(self)@ == old(self)@.deleted(),
    {
        if self.x_pos > 0 {
            self.x_pos = self.x_pos - 1;
            let c = VGACharacter::new(0x20u8, ColorCode::White, ColorCode::DarkGray);
            self.buffer.set(self.y_pos * VGA_BUFFER_WIDTH + self.x_pos, c);
        }
    }

    pub fn write_byte(&mut self, byte: u8)
        requires
            old(self).wf(),
        ensures
            final(self).wf(),
            final(self)@ == old(self)@.wrote(byte),
    {
        if byte == 0x0Au8 {
            self.new_line();
        } else if byte == 0x08 || byte == 0x7f {
            self.delete_last_char();
        } else {
            if self.x_pos < VGA_BUFFER_WIDTH {
                let c = VGACharacter::new(byte, ColorCode::White, ColorCode::DarkGray);
                self.buffer.set(self.y_pos * VGA_BUFFER_WIDTH + self.x_pos, c);
                self.x_pos = self.x_pos + 1;
            } else {
                self.new_line();
                let c = VGACharacter::new(byte, ColorCode::White, ColorCode::DarkGray);
                self.buffer.set(self.y_pos * VGA_BUFFER_WIDTH + self.x_pos, c);
                self.x_pos = self.x_pos + 1;
            }
        }
    }

    /// Writes every byte of `s`.
    pub fn write_str(&mut self, s: &str)
        requires
            old(self).wf(),
        ensures
            final(self).wf(),
            final(self)@ == old(self)@.wrote_all(s.spec_bytes()),
    {
        let bytes = s.as_bytes();
        let mut i: usize = 0;
        while i < bytes.len()
            invariant
                bytes@ == s.spec_bytes(),
                i <= bytes@.len(),
                self.wf(),
                self@ == old(self)@.wrote_all(bytes@.take(i as int)),
            decreases bytes@.len() - i,
        {
            let b = bytes[i];
            self.write_byte(b);
            proof {
                assert(bytes@.take(i + 1).drop_last() =~= bytes@.take(i as int));
            }
            i = i + 1;
        }
        proof {
            assert(bytes@.take(bytes@.len() as int) =~= bytes@);
        }
    }

    /// Blanks the screen and puts the cursor at the top left.
    pub fn clear(&mut self)
        requires
            old(self).wf(),
        ensures
            final(self).wf(),
            final(self)@.wf(),
            final(self)@.cells.len() == 2000,
            final(self)@.x == 0,
            final(self)@.y == 0,
            forall|i: int| 0 <= i < 2000 ==> #[trigger] final(self)@.cells[i] == blank_cell(),
    {
        let mut k: usize = 0;
        while k < VGA_BUFFER_HIGHT * VGA_BUFFER_WIDTH
            invariant
                k <= 2000,
                self@.cells.len() == 2000,
                0 <= self@.x <= 80,
                0 <= self@.y < 25,
                forall|i: int| 0 <= i < k ==> #[trigger] self@.cells[i] == blank_cell(),
            decreases 2000 - k,
        {
            let c = VGACharacter::new(0x20u8, ColorCode::DarkGray, ColorCode::DarkGray);
            self.buffer.set(k, c);
            k = k + 1;
        }
        self.x_pos = 0;
        self.y_pos = 0;
    }

    /// The bytes to copy to VGA text memory to show the screen.
    pub fn flush(&self) -> (r: Vec<u8>)
        requires
            self.wf(),
        ensures
            r@ == self@.frame(),
    {
        let mut out: Vec<u8> = Vec::new();
        let mut k: usize = 0;
        while k < VGA_BUFFER_HIGHT * VGA_BUFFER_WIDTH
            invariant
                k <= 2000,
                self@.cells.len() == 2000,
                out@.len() == 2 * k,
                forall|i: int| 0 <= i < 2 * k ==> #[trigger] out@[i] == self@.frame()[i],
            decreases 2000 - k,
        {
            let c = self.buffer[k];
            out.push(c.character);
            out.push(c.color);
            k = k + 1;
        }
        proof {
            assert(out@ =~= self@.frame());
        }
        out
    }

    /// Writes the low byte of `c`; returns the bytes of the screen to show.
    pub fn putc(&mut self, c: char) -> (r: Vec<u8>)
        requires
            old(self).wf(),
        ensures
            final(self).wf(),
            final(self)@ == old(self)@.wrote(((c as u32) % 256) as u8),
            r@ == final(self)@.frame(),
    {
        let b: u8 = ((c as u32) & 0xFF) as u8;
        proof {
            let cc = c as u32;
            assert(cc & 0xFF == cc % 256) by (bit_vector);
        }
        self.write_byte(b);
        self.flush()
    }

    /// Writes `s`; returns the bytes of the screen to show.
    pub fn print(&mut self, s: &str) -> (r: Vec<u8>)
        requires
            old(self).wf(),
        ensures
            final(self).wf(),
            final(self)@ == old(self)@.wrote_all(s.spec_bytes()),
            r@ == final(self)@.frame(),
    {
        self.write_str(s);
        self.flush()
    }
}

/// Every step keeps the cursor on the screen.
pub proof fn lemma_wrote_wf(v: VgaView, b: u8)
    requires
        v.wf(),
    ensures
        v.wrote(b).wf(),
{
}

/// A newline puts the cursor at the start of the next row, or of the last
/// row after scrolling.
pub proof fn lemma_newline_cursor(v: VgaView)
    requires
        v.wf(),
    ensures
        v.wrote(10).x == 0,
        v.wrote(10).y == if v.y < 24 { v.y + 1 } else { 24 },
{
}

/// A character written with room on its row, then erased, leaves the
/// cursor where it was and a blank (white on dark gray) in its place.
pub proof fn lemma_put_then_delete(v: VgaView, c: u8)
    requires
        v.wf(),
        v.x < 80,
        c != 10 && c != 8 && c != 0x7f,
    ensures
        v.wrote(c).wrote(8).x == v.x,
        v.wrote(c).wrote(8).y == v.y,
        v.wrote(c).wrote(8).cell(v.y, v.x) == (VGACharacter { character: 32, color: 0x8F }),
        forall|i: int| 0 <= i < 2000 && i != v.y * 80 + v.x ==> #[trigger] v.wrote(c).wrote(8).cells[i] == v.cells[i],
{
}

/// Scrolling moves each row but the top up one and blanks the bottom row.
pub proof fn lemma_scroll_rows(v: VgaView, y: int, x: int)
    requires
        v.wf(),
        0 <= y < 25,
        0 <= x < 80,
    ensures
        y < 24 ==> v.scrolled().cell(y, x) == v.cell(y + 1, x),
        y == 24 ==> v.scrolled().cell(y, x) == blank_cell(),
{
}

/// A character written with the cursor past the end of a row goes to the
/// start of the next row; on the bottom row the screen first scrolls up
/// one row, leaving a blank bottom row.
pub proof fn lemma_wrap_at_row_end(v: VgaView, c: u8)
    requires
        v.wf(),
        v.x == 80,
        c != 10 && c != 8 && c != 0x7f,
    ensures
        v.wrote(c).wf(),
        v.wrote(c).x == 1,
        v.y < 24 ==> v.wrote(c).y == v.y + 1,
        v.y < 24 ==> v.wrote(c).cell(v.y + 1, 0) == (VGACharacter { character: c, color: 0x8F }),
        v.y < 24 ==> forall|i: int|
            0 <= i < 2000 && i != (v.y + 1) * 80 ==> #[trigger] v.wrote(c).cells[i] == v.cells[i],
        v.y == 24 ==> v.wrote(c).y == 24,
        v.y == 24 ==> forall|row: int, col: int|
            0 <= row < 24 && 0 <= col < 80 ==> #[trigger] v.wrote(c).cell(row, col) == v.cell(row + 1, col),
        v.y == 24 ==> v.wrote(c).cell(24, 0) == (VGACharacter { character: c, color: 0x8F }),
        v.y == 24 ==> forall|col: int|
            1 <= col < 80 ==> #[trigger] v.wrote(c).cell(24, col) == (VGACharacter { character: 32, color: 0x88 }),
{
    let w = v.wrote(c);
    if v.y == 24 {
        assert forall|row: int, col: int| 0 <= row < 24 && 0 <= col < 80 implies #[trigger] w.cell(row, col) == v.cell(
            row + 1,
            col,
        ) by {
            assert(row * 80 + col < 1920) by (nonlinear_arith)
                requires 0 <= row < 24, 0 <= col < 80;
            assert(row * 80 + col + 80 == (row + 1) * 80 + col) by (nonlinear_arith);
        }
    }
}

/// A newline moves the cursor to the start of the next row and changes no
/// cell; on the bottom row the screen scrolls up one row and the bottom row
/// goes blank.
pub proof fn lemma_newline_cells(v: VgaView)
    requires
        v.wf(),
    ensures
        v.wrote(10).wf(),
        v.wrote(10).x == 0,
        v.y < 24 ==> v.wrote(10).y == v.y + 1 && v.wrote(10).cells == v.cells,
        v.y == 24 ==> v.wrote(10).y == 24,
        v.y == 24 ==> forall|row: int, col: int|
            0 <= row < 24 && 0 <= col < 80 ==> #[trigger] v.wrote(10).cell(row, col) == v.cell(row + 1, col),
        v.y == 24 ==> forall|col: int|
            0 <= col < 80 ==> #[trigger] v.wrote(10).cell(24, col) == (VGACharacter { character: 32, color: 0x88 }),
{
    let w = v.wrote(10);
    if v.y == 24 {
        assert forall|row: int, col: int| 0 <= row < 24 && 0 <= col < 80 implies #[trigger] w.cell(row, col) == v.cell(
            row + 1,
            col,
        ) by {
            assert(row * 80 + col < 1920) by (nonlinear_arith)
                requires 0 <= row < 24, 0 <= col < 80;
            assert(row * 80 + col + 80 == (row + 1) * 80 + col) by (nonlinear_arith);
        }
    }
}

/// A character written with room on its row goes at the cursor in white on
/// dark gray and moves the cursor one column right; no other cell changes.
pub proof fn lemma_put_with_room(v: VgaView, c: u8)
    requires
        v.wf(),
        v.x < 80,
        c != 10 && c != 8 && c != 0x7f,
    ensures
        v.wrote(c).x == v.x + 1,
        v.wrote(c).y == v.y,
        v.wrote(c).cell(v.y, v.x) == (VGACharacter { character: c, color: 0x8F }),
        forall|i: int| 0 <= i < 2000 && i != v.y * 80 + v.x ==> #[trigger] v.wrote(c).cells[i] == v.cells[i],
{
}

/// A backspace or delete blanks the cell before the cursor (a space, white
/// on dark gray) and moves the cursor back; at the start of a row it does
/// nothing.
pub proof fn lemma_delete_cells(v: VgaView, b: u8)
    requires
        v.wf(),
        b == 8 || b == 0x7f,
    ensures
        v.x == 0 ==> v.wrote(b) == v,
        v.x > 0 ==> v.wrote(b).x == v.x - 1 && v.wrote(b).y == v.y,
        v.x > 0 ==> v.wrote(b).cell(v.y, v.x - 1) == (VGACharacter { character: 32, color: 0x8F }),
        v.x > 0 ==> forall|i: int|
            0 <= i < 2000 && i != v.y * 80 + v.x - 1 ==> #[trigger] v.wrote(b).cells[i] == v.cells[i],
{
}

/// Writing two strings one after the other writes their concatenation.
pub proof fn lemma_wrote_all_append(v: VgaView, a: Seq<u8>, b: Seq<u8>)
    ensures
        v.wrote_all(a + b) == v.wrote_all(a).wrote_all(b),
    decreases b.len(),
{
    if b.len() == 0 {
        assert(a + b =~= a);
    } else {
        lemma_wrote_all_append(v, a, b.drop_last());
        assert((a + b).drop_last() =~= a + b.drop_last());
        assert((a + b).last() == b.last());
    }
}

} // verus!
