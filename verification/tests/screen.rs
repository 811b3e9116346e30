use oh_bugs::screen::ScreenBuffer;

fn row_text(s: &ScreenBuffer, y: u16) -> String {
    (0..s.cols()).map(|x| s.get_char(x, y)).collect()
}

#[test]
fn new_buffer_is_blank() {
    let s = ScreenBuffer::new(4, 3);
    assert_eq!(s.cols(), 4);
    assert_eq!(s.rows(), 3);
    assert_eq!(s.cursor(), (0, 0));
    for y in 0..3 {
        assert_eq!(row_text(&s, y), "    ");
    }
}

#[test]
fn printable_text_is_written_at_the_cursor() {
    let mut s = ScreenBuffer::new(10, 3);
    s.process_output(b"Error: x");
    assert_eq!(row_text(&s, 0), "Error: x  ");
    assert_eq!(s.cursor(), (8, 0));
}

#[test]
fn get_char_off_screen_is_blank() {
    let mut s = ScreenBuffer::new(3, 2);
    s.process_output(b"abcdef");
    assert_eq!(s.get_char(3, 0), ' ');
    assert_eq!(s.get_char(0, 2), ' ');
    assert_eq!(s.get_char(2, 0), 'f');
    assert_eq!(s.get_char(2, 1), ' ');
}

#[test]
fn line_feed_and_carriage_return() {
    let mut s = ScreenBuffer::new(5, 3);
    s.process_output(b"ab\r\ncd");
    assert_eq!(row_text(&s, 0), "ab   ");
    assert_eq!(row_text(&s, 1), "cd   ");
    assert_eq!(s.cursor(), (2, 1));
}

#[test]
fn line_feed_keeps_column() {
    let mut s = ScreenBuffer::new(5, 3);
    s.process_output(b"ab\ncd");
    assert_eq!(row_text(&s, 1), "  cd ");
}

#[test]
fn line_feed_on_last_row_scrolls() {
    let mut s = ScreenBuffer::new(3, 2);
    s.process_output(b"x\r\ny\r\nz");
    assert_eq!(row_text(&s, 0), "y  ");
    assert_eq!(row_text(&s, 1), "z  ");
    assert_eq!(s.cursor(), (1, 1));
}

#[test]
fn writing_past_the_last_column_wraps() {
    let mut s = ScreenBuffer::new(3, 2);
    s.process_output(b"abcd");
    assert_eq!(row_text(&s, 0), "abc");
    assert_eq!(row_text(&s, 1), "d  ");
    assert_eq!(s.cursor(), (1, 1));
}

#[test]
fn filling_the_last_cell_scrolls() {
    let mut s = ScreenBuffer::new(2, 2);
    s.process_output(b"abcd");
    assert_eq!(row_text(&s, 0), "cd");
    assert_eq!(row_text(&s, 1), "  ");
    assert_eq!(s.cursor(), (0, 1));
}

#[test]
fn tab_goes_to_next_stop_within_the_screen() {
    let mut s = ScreenBuffer::new(20, 2);
    s.process_output(b"ab\tc");
    assert_eq!(s.get_char(8, 0), 'c');
    let mut t = ScreenBuffer::new(10, 2);
    t.process_output(b"\t\t");
    assert_eq!(t.cursor(), (9, 0));
}

#[test]
fn backspace_stops_at_column_zero() {
    let mut s = ScreenBuffer::new(5, 2);
    s.process_output(b"ab\x08\x08\x08c");
    assert_eq!(row_text(&s, 0), "cb   ");
}

#[test]
fn bell_and_nul_are_ignored() {
    let mut s = ScreenBuffer::new(5, 2);
    s.process_output(b"a\x07\x00b\x01");
    assert_eq!(row_text(&s, 0), "ab   ");
    assert_eq!(s.cursor(), (2, 0));
}

#[test]
fn cursor_position_sequence() {
    let mut s = ScreenBuffer::new(10, 5);
    s.process_output(b"\x1b[3;4HX");
    assert_eq!(s.get_char(3, 2), 'X');
    s.process_output(b"\x1b[99;99H");
    assert_eq!(s.cursor(), (9, 4));
    s.process_output(b"\x1b[2H");
    assert_eq!(s.cursor(), (0, 1));
    s.process_output(b"\x1b[H");
    assert_eq!(s.cursor(), (0, 0));
    s.process_output(b"\x1b[5;2f");
    assert_eq!(s.cursor(), (1, 4));
}

#[test]
fn cursor_moves_by_count() {
    let mut s = ScreenBuffer::new(10, 5);
    s.process_output(b"\x1b[3B\x1b[4C");
    assert_eq!(s.cursor(), (4, 3));
    s.process_output(b"\x1b[A\x1b[2D");
    assert_eq!(s.cursor(), (2, 2));
    s.process_output(b"\x1b[20A\x1b[20D");
    assert_eq!(s.cursor(), (0, 0));
    s.process_output(b"\x1b[20B\x1b[20C");
    assert_eq!(s.cursor(), (9, 4));
}

#[test]
fn style_sequences_change_nothing() {
    let mut s = ScreenBuffer::new(10, 2);
    s.process_output(b"\x1b[1;31mred\x1b[0m!");
    assert_eq!(row_text(&s, 0), "red!      ");
    assert_eq!(s.cursor(), (4, 0));
}

#[test]
fn erase_display_variants() {
    let mut s = ScreenBuffer::new(4, 3);
    s.process_output(b"abcdefghijk");
    s.process_output(b"\x1b[2;2H\x1b[J");
    assert_eq!(row_text(&s, 0), "abcd");
    assert_eq!(row_text(&s, 1), "e   ");
    assert_eq!(row_text(&s, 2), "    ");
    let mut t = ScreenBuffer::new(4, 3);
    t.process_output(b"abcdefghijk\x1b[2;2H\x1b[1J");
    assert_eq!(row_text(&t, 0), "    ");
    assert_eq!(row_text(&t, 1), "  gh");
    assert_eq!(row_text(&t, 2), "ijk ");
    let mut u = ScreenBuffer::new(4, 3);
    u.process_output(b"abcdefghijk\x1b[2J");
    for y in 0..3 {
        assert_eq!(row_text(&u, y), "    ");
    }
    assert_eq!(u.cursor(), (3, 2));
}

#[test]
fn erase_line_variants() {
    let mut s = ScreenBuffer::new(5, 2);
    s.process_output(b"abcde\x1b[1;3H\x1b[K");
    assert_eq!(row_text(&s, 0), "ab   ");
    let mut t = ScreenBuffer::new(5, 2);
    t.process_output(b"abcde\x1b[1;3H\x1b[1K");
    assert_eq!(row_text(&t, 0), "   de");
    let mut u = ScreenBuffer::new(5, 2);
    u.process_output(b"abcde\x1b[1;3H\x1b[2K");
    assert_eq!(row_text(&u, 0), "     ");
    assert_eq!(u.cursor(), (2, 0));
}

#[test]
fn other_escapes_are_skipped() {
    let mut s = ScreenBuffer::new(10, 2);
    s.process_output(b"a\x1b7b\x1b[?25lc\x1b[5Xd");
    assert_eq!(row_text(&s, 0), "abcd      ");
}

#[test]
fn abandoned_csi_has_no_effect() {
    let mut s = ScreenBuffer::new(10, 2);
    s.process_output(b"\x1b[3 xy");
    assert_eq!(row_text(&s, 0), "xy        ");
}

#[test]
fn unterminated_escape_waits_for_the_next_write() {
    let mut s = ScreenBuffer::new(10, 2);
    s.process_output(b"a\x1b[12");
    assert_eq!(row_text(&s, 0), "a         ");
    assert!(s.has_pending());
    s.process_output(b"Cb");
    assert!(!s.has_pending());
    assert_eq!(row_text(&s, 0), "a        b");
    let mut t = ScreenBuffer::new(10, 2);
    t.process_output(b"a\x1b");
    assert_eq!(t.cursor(), (1, 0));
    assert!(t.has_pending());
}

#[test]
fn utf8_characters_are_decoded() {
    let mut s = ScreenBuffer::new(10, 2);
    s.process_output("é🐝x".as_bytes());
    assert_eq!(s.get_char(0, 0), 'é');
    assert_eq!(s.get_char(1, 0), '🐝');
    assert_eq!(s.get_char(2, 0), 'x');
    assert_eq!(s.cursor(), (3, 0));
}

#[test]
fn utf8_character_is_decoded_whatever_follows() {
    let mut s = ScreenBuffer::new(10, 2);
    s.process_output(b"\xc3\xa9a\xff");
    assert_eq!(row_text(&s, 0), "\u{e9}a        ");
    assert_eq!(s.cursor(), (2, 0));
}

#[test]
fn character_cut_off_at_the_end_of_a_read_waits_for_its_end() {
    let mut s = ScreenBuffer::new(4, 2);
    s.process_output(&[0xC3, 0xA9, 0xE4]);
    assert_eq!(s.get_char(0, 0), '\u{e9}');
    assert_eq!(s.cursor(), (1, 0));
    assert!(s.has_pending());
    s.process_output(&[0xB8, 0xAD]);
    assert_eq!(s.get_char(1, 0), '\u{4e2d}');
    assert_eq!(s.cursor(), (2, 0));
    assert!(!s.has_pending());
}

fn same(a: &ScreenBuffer, b: &ScreenBuffer) -> bool {
    a.cols() == b.cols()
        && a.rows() == b.rows()
        && a.cursor() == b.cursor()
        && a.has_pending() == b.has_pending()
        && (0..a.rows()).all(|y| row_text(a, y) == row_text(b, y))
}

#[test]
fn colour_sequence_split_across_reads() {
    let mut s = ScreenBuffer::new(10, 2);
    s.process_output(b"\x1b[3");
    s.process_output(b"1mA");
    assert_eq!(s.get_char(0, 0), 'A');
    assert_eq!(row_text(&s, 0), "A         ");
    assert!(!s.has_pending());
}

#[test]
fn output_cut_anywhere_gives_the_same_screen() {
    let stream = "ab\x1b[31m\u{e9}\u{1f41d}x\x1b[0m\r\ncd\x1b[2;3Hq\x1b[1;2H\x1b[0K\x1b[?25l\x1b7z\x1b[3".as_bytes();
    let mut whole = ScreenBuffer::new(12, 3);
    whole.process_output(stream);
    for cut in 0..=stream.len() {
        let mut parts = ScreenBuffer::new(12, 3);
        parts.process_output(&stream[..cut]);
        parts.process_output(&stream[cut..]);
        assert!(same(&parts, &whole), "cut at {}", cut);
        for second in cut..=stream.len() {
            let mut three = ScreenBuffer::new(12, 3);
            three.process_output(&stream[..cut]);
            three.process_output(&stream[cut..second]);
            three.process_output(&stream[second..]);
            assert!(same(&three, &whole), "cuts at {} and {}", cut, second);
        }
    }
    assert!(whole.has_pending());
}

#[test]
fn invalid_bytes_are_skipped_one_at_a_time() {
    let mut s = ScreenBuffer::new(6, 2);
    s.process_output(b"\x80x\xe4\xb8y\xf8z");
    assert_eq!(row_text(&s, 0), "xy    ");
    assert!(s.has_pending());
    s.process_output(b"ab");
    assert_eq!(row_text(&s, 0), "xyzab ");
    assert!(!s.has_pending());
}

#[test]
fn erase_to_end_of_screen_clears_in_reading_order() {
    let mut s = ScreenBuffer::new(5, 2);
    s.process_output(b"abcd\r\nefgh");
    s.process_output(b"\x1b[1;3H\x1b[0J");
    assert_eq!(s.get_char(0, 0), 'a');
    assert_eq!(s.get_char(1, 0), 'b');
    assert_eq!(s.get_char(2, 0), ' ');
    assert_eq!(s.get_char(3, 0), ' ');
    assert_eq!(s.get_char(0, 1), ' ');
    assert_eq!(s.get_char(1, 1), ' ');
    assert_eq!(s.get_char(2, 1), ' ');
    assert_eq!(s.cursor(), (2, 0));
}

#[test]
fn resize_keeps_overlap_and_clamps_cursor() {
    let mut s = ScreenBuffer::new(4, 3);
    s.process_output(b"abcdefghij");
    assert_eq!(s.cursor(), (2, 2));
    s.resize(2, 2);
    assert_eq!(row_text(&s, 0), "ab");
    assert_eq!(row_text(&s, 1), "ef");
    assert_eq!(s.cursor(), (1, 1));
    s.resize(3, 3);
    assert_eq!(row_text(&s, 0), "ab ");
    assert_eq!(row_text(&s, 2), "   ");
    assert_eq!(s.cursor(), (1, 1));
}

#[test]
fn resize_to_same_size_changes_nothing() {
    let mut s = ScreenBuffer::new(3, 2);
    s.process_output(b"xyz");
    s.resize(3, 2);
    assert_eq!(row_text(&s, 0), "xyz");
    assert_eq!(s.cursor(), (0, 1));
}

#[test]
fn screen_without_rows_takes_text_that_needs_no_row() {
    let mut s = ScreenBuffer::new(5, 0);
    s.process_output(b"abc\x1b[2J\x1b[K\x1b[3;3H");
    assert_eq!(s.cursor(), (2, 0));
    assert_eq!(s.get_char(0, 0), ' ');
    let mut t = ScreenBuffer::new(0, 3);
    t.process_output(b"xy\n\x1b[J\x1b[2K");
    assert_eq!(t.cursor(), (0, 2));
}
