use yamaos::drivers::vga::{ColorCode, VGABuffer, VGACharacter};

fn cell(frame: &[u8], y: usize, x: usize) -> (u8, u8) {
    (frame[2 * (y * 80 + x)], frame[2 * (y * 80 + x) + 1])
}

#[test]
fn color_codes() {
    assert_eq!(ColorCode::Black.value(), 0);
    assert_eq!(ColorCode::DarkGray.value(), 8);
    assert_eq!(ColorCode::White.value(), 15);
    let c = VGACharacter::new(b'A', ColorCode::White, ColorCode::DarkGray);
    assert_eq!(c.character, b'A');
    assert_eq!(c.color, 0x8F);
    let d = VGACharacter::new(b' ', ColorCode::Red, ColorCode::Blue);
    assert_eq!(d.color, 0x14);
}

#[test]
fn new_screen_is_blank() {
    let v = VGABuffer::new();
    let f = v.flush();
    assert_eq!(f.len(), 4000);
    assert!(f.chunks(2).all(|c| c == [b' ', 0x88]));
}

#[test]
fn write_advances_cursor() {
    let mut v = VGABuffer::new();
    v.write_byte(b'H');
    v.write_byte(b'i');
    let f = v.flush();
    assert_eq!(cell(&f, 0, 0), (b'H', 0x8F));
    assert_eq!(cell(&f, 0, 1), (b'i', 0x8F));
    assert_eq!(cell(&f, 0, 2), (b' ', 0x88));
    v.write_byte(b'\n');
    v.write_byte(b'x');
    let f = v.flush();
    assert_eq!(cell(&f, 1, 0), (b'x', 0x8F));
}

#[test]
fn backspace_erases() {
    let mut v = VGABuffer::new();
    v.write_str("ab");
    v.write_byte(0x08);
    let f = v.flush();
    assert_eq!(cell(&f, 0, 0), (b'a', 0x8F));
    assert_eq!(cell(&f, 0, 1), (b' ', 0x8F));
    v.write_byte(b'c');
    let f = v.flush();
    assert_eq!(cell(&f, 0, 1), (b'c', 0x8F));
    v.write_byte(0x7f);
    v.write_byte(0x7f);
    v.write_byte(0x7f);
    let f = v.flush();
    assert_eq!(cell(&f, 0, 0), (b' ', 0x8F));
    v.write_byte(b'z');
    let f = v.flush();
    assert_eq!(cell(&f, 0, 0), (b'z', 0x8F));
}

#[test]
fn full_row_wraps() {
    let mut v = VGABuffer::new();
    for _ in 0..80 {
        v.write_byte(b'#');
    }
    v.write_byte(b'!');
    let f = v.flush();
    assert_eq!(cell(&f, 0, 79), (b'#', 0x8F));
    assert_eq!(cell(&f, 1, 0), (b'!', 0x8F));
}

#[test]
fn last_row_scrolls() {
    let mut v = VGABuffer::new();
    v.write_byte(b'T');
    for _ in 0..24 {
        v.write_byte(b'\n');
    }
    v.write_byte(b'B');
    let f = v.flush();
    assert_eq!(cell(&f, 0, 0), (b'T', 0x8F));
    assert_eq!(cell(&f, 24, 0), (b'B', 0x8F));
    v.write_byte(b'\n');
    let f = v.flush();
    assert_eq!(cell(&f, 23, 0), (b'B', 0x8F));
    assert_eq!(cell(&f, 24, 0), (b' ', 0x88));
    assert_eq!(cell(&f, 0, 0), (b' ', 0x88));
    v.write_byte(b'C');
    let f = v.flush();
    assert_eq!(cell(&f, 24, 0), (b'C', 0x8F));
}

#[test]
fn scroll_and_clear_line() {
    let mut v = VGABuffer::new();
    v.write_str("top\nnext");
    v.scroll_one_line();
    let f = v.flush();
    assert_eq!(cell(&f, 0, 0), (b'n', 0x8F));
    assert_eq!(cell(&f, 24, 0), (b' ', 0x88));
    v.clear_line(0);
    let f = v.flush();
    assert_eq!(cell(&f, 0, 0), (b' ', 0x88));
    v.write_byte(b'q');
    let f = v.flush();
    assert_eq!(cell(&f, 24, 0), (b'q', 0x8F));
}

#[test]
fn new_line_and_delete() {
    let mut v = VGABuffer::new();
    v.write_byte(b'a');
    v.new_line();
    v.delete_last_char();
    v.write_byte(b'b');
    let f = v.flush();
    assert_eq!(cell(&f, 0, 0), (b'a', 0x8F));
    assert_eq!(cell(&f, 1, 0), (b'b', 0x8F));
}

#[test]
fn clear_blanks_everything() {
    let mut v = VGABuffer::new();
    v.write_str("hello\nworld");
    v.clear();
    let f = v.flush();
    assert!(f.chunks(2).all(|c| c == [b' ', 0x88]));
    v.write_byte(b'k');
    let f = v.flush();
    assert_eq!(cell(&f, 0, 0), (b'k', 0x8F));
}

#[test]
fn putc_and_print_return_the_screen() {
    let mut v = VGABuffer::new();
    let f = v.putc('Z');
    assert_eq!(cell(&f, 0, 0), (b'Z', 0x8F));
    let g = v.print("1 + 2 = 3\n");
    assert_eq!(cell(&g, 0, 1), (b'1', 0x8F));
    assert_eq!(cell(&g, 0, 9), (b'3', 0x8F));
    let h = v.putc('w');
    assert_eq!(cell(&h, 1, 0), (b'w', 0x8F));
}
