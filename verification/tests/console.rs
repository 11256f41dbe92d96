use earlyboot::vga::{
    kerror, Align, AlignCol, AlignRow, Color, ColorSpec, VgaBuffer, VgaChar, Writer,
};

fn row_text(writer: &Writer, row: usize, len: usize) -> String {
    (0..len).map(|col| writer.cell(row, col).char as char).collect()
}

#[test]
fn color_codes() {
    assert_eq!(Color::Black.code(), 0);
    assert_eq!(Color::LightGray.code(), 7);
    assert_eq!(Color::DarkGray.code(), 8);
    assert_eq!(Color::LightRed.code(), 0xc);
    assert_eq!(Color::White.code(), 0xf);
}

#[test]
fn color_spec_packs_background_and_foreground() {
    assert_eq!(ColorSpec::new(Color::LightGray, Color::Black).0, 0x07);
    assert_eq!(ColorSpec::new(Color::LightRed, Color::Black).0, 0x0c);
    assert_eq!(ColorSpec::new(Color::Yellow, Color::Blue).0, 0x1e);
    assert_eq!(ColorSpec::new(Color::Black, Color::White).0, 0xf0);
    assert_eq!(ColorSpec::default().0, 0x07);
}

#[test]
fn default_cell_is_a_gray_space() {
    assert_eq!(VgaChar::default(), VgaChar { char: b' ', spec: ColorSpec(0x07) });
}

#[test]
fn buffer_address() {
    assert_eq!(VgaBuffer::buffer(), 0xb8000);
}

#[test]
fn buffer_cells_can_be_read_and_written() {
    let mut buffer = VgaBuffer::new();
    assert_eq!(buffer.index(24, 79), VgaChar::default());
    buffer.index_mut(3, 4, VgaChar { char: b'x', spec: ColorSpec(0x1e) });
    assert_eq!(buffer.index(3, 4), VgaChar { char: b'x', spec: ColorSpec(0x1e) });
    assert_eq!(buffer.index(3, 5), VgaChar::default());
    assert_eq!(buffer.index(4, 4), VgaChar::default());
}

#[test]
fn new_writer_starts_in_the_corner() {
    let writer = Writer::new();
    assert_eq!(writer.cursor(), (0, 0));
    assert_eq!(writer.cell(0, 0), VgaChar::default());
}

#[test]
fn move_cursor_clamps() {
    let mut writer = Writer::new();
    writer.move_cursor(3, 7);
    assert_eq!(writer.cursor(), (3, 7));
    writer.move_cursor(24, 79);
    assert_eq!(writer.cursor(), (24, 79));
    writer.move_cursor(25, 80);
    assert_eq!(writer.cursor(), (24, 79));
    writer.move_cursor(usize::MAX, 0);
    assert_eq!(writer.cursor(), (24, 0));
}

#[test]
fn write_byte_advances_the_cursor() {
    let mut writer = Writer::new();
    writer.write_byte(b'a', None);
    writer.write_byte(b'b', Some(ColorSpec(0x4f)));
    assert_eq!(writer.cursor(), (0, 2));
    assert_eq!(writer.cell(0, 0), VgaChar { char: b'a', spec: ColorSpec(0x07) });
    assert_eq!(writer.cell(0, 1), VgaChar { char: b'b', spec: ColorSpec(0x4f) });
    writer.set_color(ColorSpec(0x1e));
    writer.write_byte(b'c', None);
    assert_eq!(writer.cell(0, 2), VgaChar { char: b'c', spec: ColorSpec(0x1e) });
}

#[test]
fn line_feed_breaks_the_line() {
    let mut writer = Writer::new();
    writer.write_str("ab\ncd");
    assert_eq!(writer.cursor(), (1, 2));
    assert_eq!(row_text(&writer, 0, 3), "ab ");
    assert_eq!(row_text(&writer, 1, 3), "cd ");
}

#[test]
fn a_full_row_wraps() {
    let mut writer = Writer::new();
    let text = "x".repeat(80);
    writer.write_str(&text);
    assert_eq!(writer.cursor(), (1, 0));
    assert_eq!(writer.cell(0, 79).char, b'x');
    writer.write_byte(b'y', None);
    assert_eq!(writer.cell(1, 0).char, b'y');
}

#[test]
fn the_last_row_is_never_reached_by_writing() {
    let mut writer = Writer::new();
    for line in 0..23 {
        writer.write_str(&format!("{}\n", line));
    }
    assert_eq!(writer.cursor(), (23, 0));
    assert_eq!(row_text(&writer, 0, 2), "0 ");
    assert_eq!(row_text(&writer, 21, 2), "21");
    assert_eq!(row_text(&writer, 22, 2), "22");
    assert_eq!(row_text(&writer, 23, 2), "  ");
    writer.write_str("last");
    assert_eq!(writer.cursor(), (23, 4));
    writer.write_byte(b'\n', None);
    assert_eq!(writer.cursor(), (23, 0));
    assert_eq!(row_text(&writer, 0, 2), "1 ");
    assert_eq!(row_text(&writer, 21, 2), "22");
    assert_eq!(row_text(&writer, 22, 4), "last");
    assert_eq!(row_text(&writer, 23, 4), "    ");
}

#[test]
fn scroll_up_moves_the_last_row_too() {
    let mut writer = Writer::new();
    writer.move_cursor(24, 0);
    writer.write_str("bottom");
    writer.move_cursor(1, 0);
    writer.write_str("second");
    writer.scroll_up();
    assert_eq!(row_text(&writer, 0, 6), "second");
    assert_eq!(row_text(&writer, 23, 6), "bottom");
    assert_eq!(row_text(&writer, 24, 6), "bottom");
    assert_eq!(writer.cursor(), (1, 6));
}

#[test]
fn clear_row_blanks_the_row_of_the_cursor() {
    let mut writer = Writer::new();
    writer.write_str("one\ntwo");
    writer.move_cursor(0, 2);
    writer.clear_row();
    assert_eq!(row_text(&writer, 0, 3), "   ");
    assert_eq!(row_text(&writer, 1, 3), "two");
    assert_eq!(writer.cursor(), (0, 2));
}

#[test]
fn clear_leaves_the_last_row() {
    let mut writer = Writer::new();
    writer.set_color(ColorSpec(0x1e));
    writer.move_cursor(24, 0);
    writer.write_str("keep");
    writer.move_cursor(23, 0);
    writer.write_str("gone");
    writer.move_cursor(0, 0);
    writer.write_str("gone");
    writer.clear();
    assert_eq!(writer.cursor(), (0, 0));
    assert_eq!(row_text(&writer, 0, 4), "    ");
    assert_eq!(row_text(&writer, 23, 4), "    ");
    assert_eq!(row_text(&writer, 24, 4), "keep");
    assert_eq!(writer.cell(0, 0), VgaChar::default());
    writer.write_byte(b'z', None);
    assert_eq!(writer.cell(0, 0), VgaChar { char: b'z', spec: ColorSpec(0x1e) });
}

#[test]
fn new_line_scrolls_before_the_last_row() {
    let mut writer = Writer::new();
    writer.write_str("top\n");
    writer.move_cursor(22, 5);
    writer.new_line();
    assert_eq!(writer.cursor(), (23, 0));
    assert_eq!(row_text(&writer, 0, 3), "top");
    writer.new_line();
    assert_eq!(writer.cursor(), (23, 0));
    assert_eq!(row_text(&writer, 0, 3), "   ");
}

#[test]
fn row_alignment() {
    assert_eq!(<Writer as AlignRow>::rowalign(Align::Top), 0);
    assert_eq!(<Writer as AlignRow>::rowalign(Align::Center), 12);
    assert_eq!(<Writer as AlignRow>::rowalign(Align::Bottom), 24);
}

#[test]
fn column_alignment() {
    assert_eq!(<Writer as AlignCol>::colalign(Align::Left, "hello"), 0);
    assert_eq!(<Writer as AlignCol>::colalign(Align::Center, "hello"), 37);
    assert_eq!(<Writer as AlignCol>::colalign(Align::Right, "hello"), 74);
    assert_eq!(<Writer as AlignCol>::colalign(Align::Center, ""), 39);
    assert_eq!(<Writer as AlignCol>::colalign(Align::Right, &"x".repeat(79)), 0);
    assert_eq!(<Writer as AlignCol>::colalign(Align::Left, &"x".repeat(200)), 0);
}

#[test]
fn kerror_writes_the_banner_in_red_and_the_message_in_gray() {
    let mut screen = Writer::new();
    screen.write_str("old text");
    let mut buffer = VgaBuffer::new();
    for col in 0..8 {
        buffer.index_mut(0, col, screen.cell(0, col));
    }
    let writer = kerror(buffer, "src/lib.rs:7\n   boom");
    assert_eq!(row_text(&writer, 0, 8), "old text");
    assert_eq!(row_text(&writer, 2, 26), "kernel panic: src/lib.rs:7");
    assert_eq!(row_text(&writer, 3, 7), "   boom");
    assert_eq!(writer.cell(2, 0).spec, ColorSpec(0x0c));
    assert_eq!(writer.cell(2, 13).spec, ColorSpec(0x0c));
    assert_eq!(writer.cell(2, 14).spec, ColorSpec(0x07));
    assert_eq!(writer.cell(3, 3).spec, ColorSpec(0x07));
    assert_eq!(writer.cursor(), (3, 7));
}
