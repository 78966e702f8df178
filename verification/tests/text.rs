//! Trimming, comparing and splitting on given text.

use dows::http::contains_val;
use dows::text::{
    blank, byte_field_end, chars_of, eq_bytes, eq_ignoring_case, is_just, text_field_end,
    trim_ascii, trim_text,
};

#[test]
fn ascii_blanks_are_trimmed() {
    assert_eq!(trim_ascii(b" \t\r\n\x0c a b \t"), b"a b");
    assert_eq!(trim_ascii(b"\x0ba\x0b"), b"\x0ba\x0b");
    assert_eq!(trim_ascii(b"  "), b"");
    assert_eq!(trim_ascii(b""), b"");
    for b in 0..=255u8 {
        assert_eq!(trim_ascii(&[b]), [b].trim_ascii());
    }
}

#[test]
fn white_space_is_that_of_unicode() {
    for n in 0..=0x10ffffu32 {
        if let Some(c) = char::from_u32(n) {
            assert_eq!(blank(c), c.is_whitespace(), "{n:x}");
        }
    }
}

#[test]
fn white_space_is_trimmed() {
    let text = chars_of("x\u{a0} a b\u{3000}\n,");
    let (i, j) = trim_text(&text, 1, 7);
    assert_eq!(text[i..j], ['a', ' ', 'b']);
    assert_eq!(trim_text(&text, 1, 3), (3, 3));
}

#[test]
fn case_of_ascii_letters_is_ignored() {
    assert!(eq_ignoring_case(b"Upgrade", b"uPGRADE"));
    assert!(!eq_ignoring_case(b"upgrade", b"upgrad"));
    assert!(!eq_ignoring_case(b"upgrade", b"upgradf"));
    for a in 0..=255u8 {
        for b in 0..=255u8 {
            assert_eq!(eq_ignoring_case(&[a], &[b]), a.eq_ignore_ascii_case(&b));
        }
    }
}

#[test]
fn bytes_are_compared() {
    assert!(eq_bytes(b"", b""));
    assert!(eq_bytes(b"ab", b"ab"));
    assert!(!eq_bytes(b"ab", b"abc"));
    assert!(!eq_bytes(b"ab", b"aB"));
}

#[test]
fn fields_end_at_separators() {
    assert_eq!(byte_field_end(b"ab,,c", b',', 0), 2);
    assert_eq!(byte_field_end(b"ab,,c", b',', 3), 3);
    assert_eq!(byte_field_end(b"ab,,c", b',', 4), 5);
    assert_eq!(text_field_end(&chars_of("é,b"), ',', 0), 1);
    assert_eq!(text_field_end(&chars_of("é,b"), ',', 2), 3);
}

#[test]
fn single_characters_are_recognised() {
    assert!(is_just("*", '*'));
    assert!(!is_just("", '*'));
    assert!(!is_just("**", '*'));
    assert!(!is_just("/", '*'));
}

#[test]
fn multi_valued_headers_are_searched() {
    assert!(contains_val(b"websocket", b"websocket"));
    assert!(contains_val(b"keep-alive, Upgrade", b"upgrade"));
    assert!(contains_val(b"a,\tUPGRADE ,b", b"upgrade"));
    assert!(!contains_val(b"upgraded", b"upgrade"));
    assert!(!contains_val(b"up,grade", b"upgrade"));
    assert!(!contains_val(b"", b"upgrade"));
    assert!(contains_val(b"", b""));
    assert!(contains_val(b"a,", b""));
}
