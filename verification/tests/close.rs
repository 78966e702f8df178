//! Close frames on given reasons.

use dows::close::close_frame;
use dows::framing::{CLOSE, FIN};

#[test]
fn close_frame_without_reason() {
    let mut buf = [0; 127];
    // 1000 == 0x03e8 (normal closure).
    assert_eq!(close_frame(&mut buf, 1000, ""), [FIN | CLOSE, 2, 0x03, 0xe8]);
}

#[test]
fn close_frame_with_reason() {
    let mut buf = [0; 127];
    // 1011 == 0x03f3 (internal error).
    assert_eq!(
        close_frame(&mut buf, 1011, "boom"),
        [FIN | CLOSE, 6, 0x03, 0xf3, b'b', b'o', b'o', b'm']
    );
}

#[test]
fn close_frame_truncates_overlong_reason() {
    let mut buf = [0; 127];
    let reason = "x".repeat(200);
    let frame = close_frame(&mut buf, 1000, &reason);
    // The payload is capped at the 125-byte control-frame maximum (2-byte
    // code + 123-byte reason).
    assert_eq!(frame.len(), 2 + 125);
    assert_eq!(frame[1], 125);
    assert_eq!(&frame[4..frame.len() - 3], vec![b'x'; 120].as_slice());
    assert_eq!(&frame[frame.len() - 3..], *b"...");
}

#[test]
fn close_frame_truncates_on_char_boundary() {
    let mut buf = [0; 127];
    for i in 0.."🌈".len() {
        // Shift the UTF-8 character to every possible byte position
        let reason = format!("{}{}", " ".repeat(i), "🌈".repeat(42));
        let frame = close_frame(&mut buf, 1000, &reason);
        assert!(std::str::from_utf8(&frame[4..]).is_ok());
    }
}

#[test]
fn longest_reason_that_is_not_cut() {
    let mut buf = [0; 127];
    let reason = "x".repeat(123);
    let frame = close_frame(&mut buf, 1009, &reason);
    assert_eq!(frame.len(), 127);
    assert_eq!(&frame[..4], [0x88, 125, 0x03, 0xf1]);
    assert_eq!(&frame[4..], reason.as_bytes());
}

#[test]
fn shortest_reason_that_is_cut() {
    let mut buf = [0; 127];
    let frame = close_frame(&mut buf, 1000, &"y".repeat(124));
    assert_eq!(frame.len(), 127);
    assert_eq!(&frame[4..], format!("{}...", "y".repeat(120)).as_bytes());
}

#[test]
fn cut_reason_has_as_many_whole_characters_as_fit() {
    let mut buf = [0; 127];
    // 2 bytes for each character, the first one shifted by 1
    let reason = format!("a{}", "é".repeat(100));
    let frame = close_frame(&mut buf, 1000, &reason);
    assert_eq!(&frame[4..], format!("a{}...", "é".repeat(59)).as_bytes());
    assert_eq!(frame[1] as usize, frame.len() - 2);
}

#[test]
fn bytes_behind_a_short_close_frame_are_kept() {
    let mut buf = [7; 127];
    assert_eq!(close_frame(&mut buf, 1000, "ab").len(), 6);
    assert_eq!(buf[6..], [7; 121]);
}
