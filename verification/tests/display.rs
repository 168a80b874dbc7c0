use kernel::vga_buffer::{Color, ColorCode, ScreenChar, Writer};

fn yellow() -> ColorCode {
    ColorCode::new(Color::Yellow, Color::Black)
}

fn row_text(writer: &Writer, row: usize, len: usize) -> String {
    (0..len).map(|col| writer.cell(row, col).ascii_character as char).collect()
}

#[test]
fn color_codes() {
    assert_eq!(Color::Black.code(), 0);
    assert_eq!(Color::Yellow.code(), 14);
    assert_eq!(Color::White.code(), 15);
    assert_eq!(ColorCode::new(Color::Yellow, Color::Black), ColorCode(0x0e));
    assert_eq!(ColorCode::new(Color::White, Color::Blue), ColorCode(0x1f));
    assert_eq!(ColorCode::new(Color::Black, Color::White), ColorCode(0xf0));
    assert_eq!(ColorCode::new(Color::LightGray, Color::Red), ColorCode(0x47));
}

#[test]
fn a_new_writer_shows_blanks() {
    let writer = Writer::new(yellow());
    assert_eq!(writer.column(), 0);
    for row in 0..25 {
        for col in 0..80 {
            let blank = ScreenChar { ascii_character: b' ', color_code: ColorCode(0x0e) };
            assert_eq!(writer.cell(row, col), blank);
        }
    }
}

#[test]
fn bytes_go_to_the_bottom_row() {
    let mut writer = Writer::new(yellow());
    writer.write_byte(b'H');
    writer.write_byte(b'i');
    let color_code = ColorCode(0x0e);
    assert_eq!(writer.cell(24, 0), ScreenChar { ascii_character: b'H', color_code });
    assert_eq!(writer.cell(24, 1), ScreenChar { ascii_character: b'i', color_code });
    assert_eq!(writer.cell(24, 2).ascii_character, b' ');
    assert_eq!(writer.cell(23, 0).ascii_character, b' ');
    assert_eq!(writer.column(), 2);
}

#[test]
fn a_line_feed_scrolls() {
    let mut writer = Writer::new(yellow());
    writer.write_str("one\ntwo\nthree");
    assert_eq!(row_text(&writer, 22, 5), "one  ");
    assert_eq!(row_text(&writer, 23, 5), "two  ");
    assert_eq!(row_text(&writer, 24, 5), "three");
    assert_eq!(row_text(&writer, 21, 5), "     ");
    assert_eq!(writer.column(), 5);
    writer.write_byte(b'\n');
    assert_eq!(row_text(&writer, 21, 5), "one  ");
    assert_eq!(row_text(&writer, 23, 5), "three");
    assert_eq!(row_text(&writer, 24, 5), "     ");
    assert_eq!(writer.column(), 0);
}

#[test]
fn a_full_row_wraps_at_the_next_byte() {
    let mut writer = Writer::new(yellow());
    for _ in 0..80 {
        writer.write_byte(b'x');
    }
    assert_eq!(writer.column(), 80);
    assert_eq!(writer.cell(24, 79).ascii_character, b'x');
    assert_eq!(writer.cell(23, 0).ascii_character, b' ');
    writer.write_byte(b'y');
    assert_eq!(writer.column(), 1);
    assert_eq!(writer.cell(24, 0).ascii_character, b'y');
    assert_eq!(writer.cell(24, 1).ascii_character, b' ');
    assert_eq!(writer.cell(23, 0).ascii_character, b'x');
    assert_eq!(writer.cell(23, 79).ascii_character, b'x');
}

#[test]
fn the_top_row_scrolls_away() {
    let mut writer = Writer::new(yellow());
    for line in 0..26u8 {
        writer.write_byte(b'a' + line);
        writer.write_byte(b'\n');
    }
    assert_eq!(writer.cell(0, 0).ascii_character, b'c');
    assert_eq!(writer.cell(23, 0).ascii_character, b'z');
    assert_eq!(writer.cell(24, 0).ascii_character, b' ');
}

#[test]
fn clear_row_blanks_one_row() {
    let mut writer = Writer::new(yellow());
    writer.write_str("abc\ndef");
    writer.clear_row(23);
    assert_eq!(row_text(&writer, 23, 3), "   ");
    assert_eq!(row_text(&writer, 24, 3), "def");
    assert_eq!(writer.column(), 3);
}

#[test]
fn new_line_moves_rows_up() {
    let mut writer = Writer::new(yellow());
    writer.write_str("abc");
    writer.new_line();
    assert_eq!(row_text(&writer, 23, 3), "abc");
    assert_eq!(row_text(&writer, 24, 3), "   ");
    assert_eq!(writer.column(), 0);
}

#[test]
fn write_str_writes_every_byte_of_the_encoding() {
    let mut writer = Writer::new(yellow());
    writer.write_str("\u{e9}!");
    assert_eq!(writer.cell(24, 0).ascii_character, 0xc3);
    assert_eq!(writer.cell(24, 1).ascii_character, 0xa9);
    assert_eq!(writer.cell(24, 2).ascii_character, b'!');
    assert_eq!(writer.column(), 3);
    writer.write_str("");
    assert_eq!(writer.column(), 3);
}
