use kernel_memory::vga_buffer::{Color, ColorCode, ScreenChar, Writer, BUFFER_HEIGHT, BUFFER_WIDTH};

fn row_text(w: &Writer, row: usize) -> String {
    (0..BUFFER_WIDTH).map(|c| w.char_at(row, c).ascii_character as char).collect::<String>()
}

#[test]
fn color_codes() {
    assert_eq!(ColorCode::new(Color::Yellow, Color::Black).0, 0x0e);
    assert_eq!(ColorCode::new(Color::White, Color::Blue).0, 0x1f);
    assert_eq!(Color::Pink.value(), 13);
}

#[test]
fn bytes_go_to_the_cursor() {
    let code = ColorCode::new(Color::Yellow, Color::Black);
    let mut w = Writer::new(code);
    w.write_str("Hello");
    assert!(row_text(&w, 0).starts_with("Hello "));
    assert_eq!((w.row_position(), w.column_position()), (0, 5));
    assert_eq!(w.char_at(0, 0), ScreenChar { ascii_character: b'H', color_code: code });
    assert_eq!(w.char_at(1, 0).ascii_character, b' ');
}

#[test]
fn line_feed_moves_down_a_row() {
    let code = ColorCode::new(Color::Yellow, Color::Black);
    let mut w = Writer::new(code);
    w.write_str("ab\ncd");
    assert!(row_text(&w, 0).starts_with("ab "));
    assert!(row_text(&w, 1).starts_with("cd "));
    assert_eq!((w.row_position(), w.column_position()), (1, 2));
}

#[test]
fn leaving_the_last_row_scrolls() {
    let code = ColorCode::new(Color::White, Color::Black);
    let mut w = Writer::new(code);
    w.write_str("first");
    for _ in 0..BUFFER_HEIGHT - 1 {
        w.write_byte(b'\n');
    }
    assert_eq!(w.row_position(), BUFFER_HEIGHT - 1);
    assert!(row_text(&w, 0).starts_with("first"));
    w.write_str("last\n");
    assert_eq!(w.row_position(), BUFFER_HEIGHT - 1);
    assert!(row_text(&w, 0).starts_with("     "));
    assert!(row_text(&w, BUFFER_HEIGHT - 2).starts_with("last "));
    assert_eq!(row_text(&w, BUFFER_HEIGHT - 1).trim(), "");
}

#[test]
fn full_row_wraps() {
    let code = ColorCode::new(Color::White, Color::Black);
    let mut w = Writer::new(code);
    for _ in 0..BUFFER_WIDTH {
        w.write_byte(b'x');
    }
    assert_eq!(w.column_position(), BUFFER_WIDTH);
    w.write_byte(b'y');
    assert_eq!((w.row_position(), w.column_position()), (1, 1));
    assert_eq!(w.char_at(0, BUFFER_WIDTH - 1).ascii_character, b'x');
    assert!(row_text(&w, 1).starts_with("y "));
}

#[test]
fn clearing() {
    let code = ColorCode::new(Color::White, Color::Black);
    let mut w = Writer::new(code);
    w.write_str("one\ntwo");
    w.clear_row(1);
    assert_eq!(row_text(&w, 1).trim(), "");
    assert_eq!(w.char_at(0, 0).ascii_character, b'o');
    w.clear_screen();
    assert_eq!(w.char_at(0, 0).ascii_character, b' ');
    assert_eq!((w.row_position(), w.column_position()), (0, 0));
}
