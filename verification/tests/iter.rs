use lookscan::SourceBytes;
use lookscan::SourceChars;

fn drain(chars: &mut SourceChars) -> String {
    let mut out = String::new();
    while let Some(c) = chars.next() {
        out.push(c);
    }
    out
}

#[test]
fn test_source_chars() {
    let source = "abcdefg";
    let mut chars = SourceChars::new(source.bytes().collect());
    assert_eq!(source, drain(&mut chars));
}

#[test]
fn test_source_chars_buffer() {
    let source = "abcdefg";
    let mut chars = SourceChars::new(source.bytes().collect());
    // Ensure that the `buffer` function works.
    assert_eq!(&source[0..3], chars.buffer(3).unwrap());
    // Ensure that the characters are taken from the buffer,
    // and that `buffer` correctly preserves them.
    assert_eq!(source, drain(&mut chars));
}

#[test]
fn test_source_bytes_next() {
    let mut bytes = SourceBytes::new(vec![10, 20, 30]);
    assert_eq!(bytes.next(), Some(10));
    assert_eq!(bytes.next(), Some(20));
    assert_eq!(bytes.next(), Some(30));
    assert_eq!(bytes.next(), None);
    assert_eq!(bytes.next(), None);
}

#[test]
fn test_source_bytes_look_then_consume() {
    // Looking ahead agrees with consuming: the bytes a successful look
    // returns are exactly the ones next() then yields, in order.
    let mut bytes = SourceBytes::new(vec![1, 2, 3, 4, 5]);
    let view = bytes.look(4).unwrap();
    assert_eq!(view, vec![1, 2, 3, 4]);
    for expected in view {
        assert_eq!(bytes.next(), Some(expected));
    }
    assert_eq!(bytes.next(), Some(5));
    assert_eq!(bytes.next(), None);
}

#[test]
fn test_source_bytes_peek_idempotent() {
    let mut bytes = SourceBytes::new(vec![7, 8]);
    assert_eq!(bytes.peek(), Some(7));
    assert_eq!(bytes.peek(), Some(7));
    assert_eq!(bytes.next(), Some(7));
    assert_eq!(bytes.peek(), Some(8));
}

#[test]
fn test_source_bytes_look_past_end() {
    // A look past the end returns nothing; the bytes pulled meanwhile stay
    // buffered and still come out in order.
    let mut bytes = SourceBytes::new(vec![1, 2]);
    assert_eq!(bytes.look(3), None);
    assert_eq!(bytes.look(2).unwrap(), vec![1, 2]);
    assert_eq!(bytes.next(), Some(1));
    assert_eq!(bytes.next(), Some(2));
    assert_eq!(bytes.next(), None);
}

#[test]
fn test_source_chars_multibyte() {
    // One char each of width 1, 2, 3 and 4 bytes.
    let source = "a\u{e9}\u{20ac}\u{1f600}";
    let mut chars = SourceChars::new(source.bytes().collect());
    assert_eq!(chars.peek(), Some('a'));
    assert_eq!(chars.look(4).unwrap(), source);
    assert_eq!(chars.next(), Some('a'));
    assert_eq!(chars.next(), Some('\u{e9}'));
    assert_eq!(chars.next(), Some('\u{20ac}'));
    assert_eq!(chars.next(), Some('\u{1f600}'));
    assert_eq!(chars.next(), None);
}

#[test]
fn test_source_chars_look_idempotent() {
    let source = "abcdefg";
    let mut chars = SourceChars::new(source.bytes().collect());
    assert_eq!(chars.look(5).unwrap(), "abcde");
    assert_eq!(chars.look(5).unwrap(), "abcde");
    assert_eq!(chars.look(3).unwrap(), "abc");
    assert_eq!(chars.peek(), Some('a'));
    assert_eq!(chars.peek(), Some('a'));
    assert_eq!(chars.look(8), None);
    assert_eq!(source, drain(&mut chars));
}

#[test]
fn test_source_chars_malformed_stops() {
    // A stray continuation byte stops the decoder without consuming it:
    // repeated calls keep yielding nothing.
    let mut chars = SourceChars::new(vec![0x61, 0x80, 0x62]);
    assert_eq!(chars.next(), Some('a'));
    assert_eq!(chars.next(), None);
    assert_eq!(chars.next(), None);
    assert_eq!(chars.look(2), None);
}

#[test]
fn test_source_chars_truncated_stops() {
    // A two-byte lead with no continuation byte reads as end of stream.
    let mut chars = SourceChars::new(vec![0x61, 0xc3]);
    assert_eq!(chars.look(2), None);
    assert_eq!(chars.next(), Some('a'));
    assert_eq!(chars.next(), None);
}

#[test]
fn test_source_chars_overlong_rejected() {
    // 0xC0 0xAF is an overlong encoding of '/', which must not decode.
    let mut chars = SourceChars::new(vec![0xc0, 0xaf]);
    assert_eq!(chars.next(), None);
}
