use lisp_reader::reader::{peek_char, read_char, read_while, string_reader, unread_char, ReaderError};

#[test]
fn empty_stream_fails_at_end_of_input() {
    let mut r = string_reader("");
    assert_eq!(peek_char(&mut r), Err(ReaderError::EndOfInput));
    assert_eq!(read_char(&mut r), Err(ReaderError::EndOfInput));
}

#[test]
fn peek_leaves_the_character() {
    let mut r = string_reader("xy");
    assert_eq!(peek_char(&mut r), Ok('x'));
    assert_eq!(peek_char(&mut r), Ok('x'));
    assert_eq!(read_char(&mut r), Ok('x'));
    assert_eq!(peek_char(&mut r), Ok('y'));
}

#[test]
fn peek_sees_the_latest_pushback() {
    let mut r = string_reader("c");
    assert_eq!(unread_char(&mut r, 'a'), Ok(()));
    assert_eq!(unread_char(&mut r, 'b'), Ok(()));
    assert_eq!(peek_char(&mut r), Ok('b'));
}

#[test]
fn pushback_comes_back_in_reverse_order() {
    let mut r = string_reader("ab");
    for c in ['x', 'y', 'z'] {
        assert_eq!(unread_char(&mut r, c), Ok(()));
    }
    let mut out = String::new();
    while let Ok(c) = read_char(&mut r) {
        out.push(c);
    }
    assert_eq!(out, "zyxab");
}

#[test]
fn pushback_after_end_of_input() {
    let mut r = string_reader("q");
    assert_eq!(read_char(&mut r), Ok('q'));
    assert_eq!(read_char(&mut r), Err(ReaderError::EndOfInput));
    assert_eq!(unread_char(&mut r, 'q'), Ok(()));
    assert_eq!(read_char(&mut r), Ok('q'));
}

#[test]
fn pushback_of_many_characters() {
    let mut r = string_reader("");
    for _ in 0..1000 {
        assert_eq!(unread_char(&mut r, 'k'), Ok(()));
    }
    for _ in 0..1000 {
        assert_eq!(read_char(&mut r), Ok('k'));
    }
    assert_eq!(read_char(&mut r), Err(ReaderError::EndOfInput));
}

#[test]
fn scan_leaves_its_terminator() {
    let mut r = string_reader("abc;rest");
    let stop = |c: char| c == ';';
    assert_eq!(read_while(&mut r, &stop, true), Ok("abc".to_string()));
    assert_eq!(peek_char(&mut r), Ok(';'));
    assert_eq!(read_char(&mut r), Ok(';'));
    assert_eq!(read_char(&mut r), Ok('r'));
}

#[test]
fn scan_stopping_at_first_character_is_empty() {
    let mut r = string_reader(";x");
    let stop = |c: char| c == ';';
    assert_eq!(read_while(&mut r, &stop, true), Ok(String::new()));
    assert_eq!(read_char(&mut r), Ok(';'));
}

#[test]
fn scan_without_terminator_takes_everything() {
    let mut r = string_reader("abc");
    let stop = |c: char| c == ' ';
    assert_eq!(read_while(&mut r, &stop, false), Ok("abc".to_string()));
    assert_eq!(read_char(&mut r), Err(ReaderError::EndOfInput));
    let mut r2 = string_reader("");
    assert_eq!(read_while(&mut r2, &stop, false), Ok(String::new()));
    let mut r3 = string_reader("");
    assert_eq!(read_while(&mut r3, &stop, true), Err(ReaderError::EndOfInput));
}

#[test]
fn stream_handles_non_ascii() {
    let mut r = string_reader("λé ");
    let stop = |c: char| c == ' ';
    assert_eq!(read_while(&mut r, &stop, true), Ok("λé".to_string()));
}
