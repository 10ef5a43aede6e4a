use lisp_reader::reader::{
    parse_symbol, peek_char, read_char, read_keyword, read_regex, read_string_type, read_symbol,
    read_token, read_while, string_reader, unread_char, ReaderError,
};
use lisp_reader::types::{Keyword, Pattern, Symbol};

#[test]
fn peek_char_test() {
    let mut r = string_reader("c");
    assert!(peek_char(&mut r).expect("Failed peek_char") == 'c');
}

#[test]
fn read_char_test() {
    let mut r = string_reader("c");
    assert!(read_char(&mut r).expect("Failed read_char") == 'c');
}

#[test]
fn unread_char_test() {
    let mut r = string_reader("bc");
    let _ = unread_char(&mut r, 'a');
    assert!(read_char(&mut r).expect("Failed read_char") == 'a');
    assert!(read_char(&mut r).expect("Failed read_char") == 'b');
    assert!(read_char(&mut r).expect("Failed read_char") == 'c');
}

#[test]
fn read_while_test() {
    let mut r = string_reader("abc ");
    let f = &|c| c == ' ';
    assert!(read_while(&mut r, f, false).expect("Failed read_while") == "abc");
    let mut r2 = string_reader("abc");
    match read_while(&mut r2, f, true) {
        Ok(_) => panic!("Shouldn't have succeeded read_while"),
        Err(ReaderError::EndOfInput) => (),
        _ => panic!("Should have Err(ReaderError::EndOfInput)"),
    }
}

#[test]
fn read_string_type_test() {
    let mut r = string_reader("abc\"");
    assert!(read_string_type(&mut r, '"') == Ok("abc".to_string()));
    let mut r = string_reader("abc\\\\\"");
    assert!(read_string_type(&mut r, '"') == Ok("abc\\".to_string()));
    let mut r = string_reader("abc");
    assert!(read_string_type(&mut r, '"') == Err(ReaderError::EndOfInput));
}

#[test]
fn read_regex_test() {
    let mut r = string_reader("abc\"");
    assert!(read_regex(&mut r, '"') == Ok(Pattern("abc".to_string())));
    let mut r = string_reader("abc\\\"");
    assert!(read_regex(&mut r, '"') == Ok(Pattern("abc\\".to_string())));
    let mut r = string_reader("abc");
    assert!(read_regex(&mut r, '"') == Err(ReaderError::EndOfInput));
}

#[test]
fn read_token_test() {
    let mut r = string_reader("bc ");
    assert!(read_token(&mut r, 'a').expect("Failed read_token") == "abc");
    let mut r2 = string_reader("bc{");
    assert!(read_token(&mut r2, 'a').expect("Failed read_token") == "abc");
    let mut r3 = string_reader("bc\\");
    assert!(read_token(&mut r3, 'a').expect("Failed read_token") == "abc");
}

#[test]
fn parse_symbol_test() {
    assert!(parse_symbol("abc".to_string()) == Ok((None, "abc".to_string())));
    assert!(parse_symbol(":a".to_string()) == Ok((None, ":a".to_string())));
    assert!(parse_symbol(":".to_string()) == Err(ReaderError::InvalidSymbol));
    assert!(parse_symbol(":a".to_string()) == Ok((None, ":a".to_string())));
}

#[test]
fn read_symbol_test() {
    let mut r = string_reader("bc ");
    let sym = read_symbol(&mut r, 'a').expect("Failed read_token");
    assert!(sym == Symbol::SimpleSymbol("abc".to_string()));
    let mut r2 = string_reader("s1/abc ");
    let sym2 = read_symbol(&mut r2, 'n').expect("Failed read_token");
    assert!(sym2 == Symbol::NamespacedSymbol("ns1".to_string(), "abc".to_string()));
    let mut r3 = string_reader(" ");
    let sym3 = read_symbol(&mut r3, '/').expect("Failed read_token");
    assert!(sym3 == Symbol::SimpleSymbol("/".to_string()));
}

#[test]
fn read_keyword_test() {
    let mut r = string_reader("abc ");
    let key = read_keyword(&mut r, ':').expect("Failed read_token");
    assert!(key == Keyword::SimpleKeyword("abc".to_string()));
    let mut r2 = string_reader("ns1/abc ");
    let key = read_keyword(&mut r2, ':').expect("Failed read_token");
    assert!(key == Keyword::NamespacedKeyword("ns1".to_string(), "abc".to_string()));
    let mut r3 = string_reader(" ");
    match read_keyword(&mut r3, ':') {
        Err(err) => assert!(err == ReaderError::InvalidToken),
        _ => panic!("Should have ReaderError::InvalidToken"),
    }
    let mut r3 = string_reader(":a ");
    match read_keyword(&mut r3, ':') {
        Err(err) => assert!(err == ReaderError::InvalidKeyword),
        _ => panic!("Should have ReaderError::InvalidKeyword"),
    }
}
