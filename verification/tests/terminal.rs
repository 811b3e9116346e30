use oh_bugs::terminal::{push_char_utf8, push_decimal, Terminal};

#[test]
fn draw_bug_moves_then_writes_the_emoji() {
    let mut out: Vec<u8> = Vec::new();
    Terminal::draw_bug_to(&mut out, 1, 2, "🐝");
    assert_eq!(out, "\x1b[3;2H🐝".as_bytes());
}

#[test]
fn clear_at_writes_one_character() {
    let mut out: Vec<u8> = b">".to_vec();
    Terminal::clear_at_to(&mut out, 0, 0, 'é');
    assert_eq!(out, ">\x1b[1;1Hé".as_bytes());
}

#[test]
fn clear_bug_at_writes_both_cells() {
    let mut out: Vec<u8> = Vec::new();
    Terminal::clear_bug_at_to(&mut out, 9, 0, 'a', 'b');
    assert_eq!(out, b"\x1b[1;10Ha\x1b[1;11Hb".to_vec());
}

#[test]
fn coordinates_wrap_at_the_u16_limit() {
    let mut out: Vec<u8> = Vec::new();
    Terminal::clear_at_to(&mut out, 65535, 65535, 'x');
    assert_eq!(out, b"\x1b[0;0Hx".to_vec());
}

#[test]
fn decimal_digits() {
    let mut out: Vec<u8> = Vec::new();
    push_decimal(&mut out, 0);
    push_decimal(&mut out, 7);
    push_decimal(&mut out, 10);
    push_decimal(&mut out, 65535);
    assert_eq!(out, b"071065535".to_vec());
}

#[test]
fn utf8_encoding_of_each_width() {
    for ch in ['a', 'é', '€', '🦗'] {
        let mut out: Vec<u8> = Vec::new();
        push_char_utf8(&mut out, ch);
        let mut buf = [0u8; 4];
        assert_eq!(out, ch.encode_utf8(&mut buf).as_bytes());
    }
}

#[test]
fn terminal_remembers_raw_mode() {
    assert!(Terminal::new(true).original_raw_mode());
    assert!(!Terminal::new(false).original_raw_mode());
}
