use lookscan::Cursor;
use lookscan::Scanner;
use lookscan::Selection;

#[test]
fn test_cursor() {
    let mut cursor = Cursor::new();
    assert_eq!(cursor.len(), 0);
    assert_eq!(cursor.extend(2).len(), 2);
    assert_eq!(cursor.extend(3).len(), 5);
    assert_eq!(cursor.advance().index(), 5);
    assert_eq!(cursor.advance().index(), 5);
    assert_eq!(cursor.extend(1), &Cursor::Char(5));
    assert_eq!(cursor.len(), 1);
    assert_eq!(cursor.extend(1), &Cursor::Slice(5, 2));
    assert_eq!(cursor.extend(3), &Cursor::Slice(5, 5));
    assert_eq!(cursor.advance().index(), 10);
}

#[test]
fn test_cursor_is_empty() {
    let mut cursor = Cursor::new();
    assert!(cursor.is_empty());
    cursor.extend(0);
    assert!(cursor.is_empty());
    cursor.extend(1);
    assert!(!cursor.is_empty());
    cursor.advance();
    assert!(cursor.is_empty());
    assert_eq!(cursor.index(), 1);
}

#[test]
fn test_scanner_take() {
    let mut scan = Scanner::new("123456789".bytes().collect());
    assert!(scan.take(1).selection().eq_char('1'));
    assert!(scan.take(1).selection().eq_char('2'));
    assert!(scan.take(3).selection().eq_slice("345"));
    assert_eq!(scan.selection(), Selection::Empty);
    assert!(scan.take(4).selection().eq_slice("6789"));
    assert_eq!(scan.take(1).selection(), Selection::EndOfFile);
}

#[test]
fn test_scanner_peek() {
    let mut scan = Scanner::new("123456789".bytes().collect());
    assert_eq!(scan.selection(), Selection::Empty);
    assert!(scan.peek(0).eq_slice(""));
    assert!(scan.peek(1).eq_char('1'));
    assert!(scan.peek(1).eq_char('1'));
    assert!(scan.peek(2).eq_slice("12"));
    assert_eq!(scan.selection(), Selection::Empty);
    assert!(scan.take(3).selection().eq_slice("123"));
    assert!(scan.take(1).selection().eq_char('4'));
    assert_eq!(scan.take(9).selection(), Selection::EndOfFile);
}

#[test]
fn test_scanner_peek_then_take() {
    // A peek reports the very character the next take consumes.
    let mut scan = Scanner::new("ab".bytes().collect());
    let peeked = scan.peek(1);
    assert_eq!(peeked, scan.peek(1));
    assert!(peeked.eq_char('a'));
    let taken = scan.take(1).selection();
    assert_eq!(peeked, taken);
    assert!(scan.take(1).selection().eq_char('b'));
}

#[test]
fn test_scanner_cursor_tracks_position() {
    let mut scan = Scanner::new("abcdef".bytes().collect());
    assert_eq!(scan.cursor(), Cursor::Index(0));
    scan.take(2);
    assert_eq!(scan.cursor(), Cursor::Slice(0, 2));
    scan.selection();
    assert_eq!(scan.cursor(), Cursor::Index(2));
    scan.take(1);
    assert_eq!(scan.cursor(), Cursor::Char(2));
    scan.selection();
    assert_eq!(scan.cursor(), Cursor::Index(3));
}

#[test]
fn test_scanner_end_of_file_advances_cursor() {
    // Materializing always advances past the attempted span, even on
    // EndOfFile — but nothing was consumed, so the input is still there.
    let mut scan = Scanner::new("ab".bytes().collect());
    assert_eq!(scan.take(5).selection(), Selection::EndOfFile);
    assert_eq!(scan.cursor(), Cursor::Index(5));
    assert!(scan.take(2).selection().eq_slice("ab"));
    assert_eq!(scan.cursor(), Cursor::Index(7));
}

#[test]
fn test_scanner_malformed_reads_as_end_of_file() {
    let mut scan = Scanner::new(vec![0x61, 0xff, 0x62]);
    assert!(scan.take(1).selection().eq_char('a'));
    assert_eq!(scan.take(1).selection(), Selection::EndOfFile);
    assert_eq!(scan.take(2).selection(), Selection::EndOfFile);
}

#[test]
fn test_selection_eq_char() {
    assert!(Selection::Char('x').eq_char('x'));
    assert!(!Selection::Char('x').eq_char('y'));
    assert!(!Selection::Empty.eq_char('x'));
    assert!(!Selection::Slice("x".to_owned()).eq_char('x'));
    assert!(!Selection::EndOfFile.eq_char('x'));
}

#[test]
fn test_selection_eq_slice() {
    assert!(Selection::Slice("abc".to_owned()).eq_slice("abc"));
    assert!(!Selection::Slice("abc".to_owned()).eq_slice("abd"));
    assert!(!Selection::Slice("abc".to_owned()).eq_slice("ab"));
    // A character selection matches only a one-byte string holding it.
    assert!(Selection::Char('x').eq_slice("x"));
    assert!(!Selection::Char('x').eq_slice("xy"));
    assert!(!Selection::Char('\u{e9}').eq_slice("\u{e9}"));
    assert!(!Selection::Empty.eq_slice(""));
    assert!(!Selection::EndOfFile.eq_slice(""));
}

#[test]
fn test_selection_to_char_unchecked() {
    assert_eq!(Selection::Char('q').to_char_unchecked(), 'q');
    // A one-byte string selection also reads as a character.
    assert_eq!(Selection::Slice("q".to_owned()).to_char_unchecked(), 'q');
}

#[test]
fn test_selection_to_slice_unchecked() {
    let selection = Selection::Slice("span".to_owned());
    assert_eq!(selection.to_slice_unchecked(), "span");
}

#[test]
fn test_selection_default_is_empty() {
    assert_eq!(Selection::default(), Selection::Empty);
}
